//! Per-interface usage and health statistics.
//!
//! Compares the counters under `/sys/class/net` between two samples and keeps how far
//! each went (both directions) in how long, plus liveness used by failover.

use crate::interface::{counter_of, holds, read_bool, read_u64, says, SysfsEntry};
use crate::names::NameMap;
use vstd::prelude::*;

verus! {

/// The shortest time that usage is reckoned over, in nanoseconds.
pub const MIN_WINDOW_NANOS: u64 = 1_000_000;

/// A sampled snapshot of one interface's usage: how far each counter went in
/// `window_nanos` nanoseconds.
#[derive(Debug, Clone, Copy, PartialEq, Eq, Structural)]
pub struct IfaceSample {
    pub rx_bytes: u64,
    pub tx_bytes: u64,
    pub rx_packets: u64,
    pub tx_packets: u64,
    pub window_nanos: u64,
    pub is_up: bool,
}

/// The counters of one interface.
#[derive(Debug, Clone, Copy, PartialEq, Eq, Structural)]
pub struct Counters {
    pub rx_bytes: u64,
    pub tx_bytes: u64,
    pub rx_packets: u64,
    pub tx_packets: u64,
}

/// The counters that the attributes give.
pub open spec fn counters_in(e: SysfsEntry) -> Counters {
    Counters {
        rx_bytes: counter_of(e.rx_bytes),
        tx_bytes: counter_of(e.tx_bytes),
        rx_packets: counter_of(e.rx_packets),
        tx_packets: counter_of(e.tx_packets),
    }
}

/// The counters of every name in `entries`; the last entry of a name counts.
pub open spec fn all_counters(entries: Seq<SysfsEntry>) -> Map<Seq<char>, Counters>
    decreases entries.len(),
{
    if entries.len() == 0 {
        Map::empty()
    } else {
        all_counters(entries.drop_last()).insert(entries.last().name@, counters_in(entries.last()))
    }
}

/// How far a counter went from `before` to `now`; no way where it was set back.
pub open spec fn advance(now: u64, before: u64) -> u64 {
    if now >= before {
        (now - before) as u64
    } else {
        0
    }
}

/// The time that usage is reckoned over after `elapsed` nanoseconds.
pub open spec fn window(elapsed: u64) -> u64 {
    if elapsed < MIN_WINDOW_NANOS {
        MIN_WINDOW_NANOS
    } else {
        elapsed
    }
}

/// The usage of an interface whose counters were `last` the time before, `elapsed`
/// nanoseconds ago: none where it is seen for the first time.
pub open spec fn sampled(e: SysfsEntry, last: Option<Counters>, elapsed: u64) -> IfaceSample {
    let now = counters_in(e);
    let before = match last {
        Some(c) => c,
        None => now,
    };
    IfaceSample {
        rx_bytes: advance(now.rx_bytes, before.rx_bytes),
        tx_bytes: advance(now.tx_bytes, before.tx_bytes),
        rx_packets: advance(now.rx_packets, before.rx_packets),
        tx_packets: advance(now.tx_packets, before.tx_packets),
        window_nanos: window(elapsed),
        is_up: says(e.carrier, "1"@) || says(e.operstate, "up"@),
    }
}

/// `samples` with a new one for every name in `entries`; the last entry of a name
/// counts.
pub open spec fn resampled(
    samples: Map<Seq<char>, IfaceSample>,
    last: Map<Seq<char>, Counters>,
    entries: Seq<SysfsEntry>,
    elapsed: u64,
) -> Map<Seq<char>, IfaceSample>
    decreases entries.len(),
{
    if entries.len() == 0 {
        samples
    } else {
        let e = entries.last();
        resampled(samples, last, entries.drop_last(), elapsed).insert(
            e.name@,
            sampled(e, last.get(e.name@), elapsed),
        )
    }
}

/// Tracks and computes usage for all interfaces.
pub struct StatsCollector {
    /// The counters of the time before.
    pub last_counters: NameMap<Counters>,
    /// The latest sample of every interface that was ever seen.
    pub samples: NameMap<IfaceSample>,
}

fn counters_now(e: &SysfsEntry) -> (r: Counters)
    ensures
        r == counters_in(*e),
{
    Counters {
        rx_bytes: read_u64(&e.rx_bytes),
        tx_bytes: read_u64(&e.tx_bytes),
        rx_packets: read_u64(&e.rx_packets),
        tx_packets: read_u64(&e.tx_packets),
    }
}

impl Default for StatsCollector {
    fn default() -> (r: Self)
        ensures
            r.samples@ == Map::<Seq<char>, IfaceSample>::empty(),
            r.last_counters@ == Map::<Seq<char>, Counters>::empty(),
    {
        StatsCollector { last_counters: NameMap::new(), samples: NameMap::new() }
    }
}

impl StatsCollector {
    /// Refresh `self.samples` from the current counters, `elapsed` nanoseconds after the
    /// time before. A name that is gone keeps its last sample, but starts afresh when it
    /// comes back.
    pub fn refresh(&mut self, entries: &Vec<SysfsEntry>, elapsed: u64)
        ensures
            final(self).samples@ == resampled(
                old(self).samples@,
                old(self).last_counters@,
                entries@,
                elapsed,
            ),
            final(self).last_counters@ == all_counters(entries@),
    {
        let mut current: NameMap<Counters> = NameMap::new();
        let window: u64 = if elapsed < MIN_WINDOW_NANOS {
            MIN_WINDOW_NANOS
        } else {
            elapsed
        };
        let mut i: usize = 0;
        assert(entries@.take(0) =~= Seq::<SysfsEntry>::empty());
        while i < entries.len()
            invariant
                i <= entries@.len(),
                window == self::window(elapsed),
                self.last_counters@ == old(self).last_counters@,
                current@ == all_counters(entries@.take(i as int)),
                self.samples@ == resampled(
                    old(self).samples@,
                    old(self).last_counters@,
                    entries@.take(i as int),
                    elapsed,
                ),
            decreases entries@.len() - i,
        {
            let e = &entries[i];
            assert(entries@.take(i + 1).drop_last() =~= entries@.take(i as int));
            let now = counters_now(e);
            let before = match self.last_counters.get(e.name.as_str()) {
                Some(c) => *c,
                None => now,
            };
            let sample = IfaceSample {
                rx_bytes: now.rx_bytes.saturating_sub(before.rx_bytes),
                tx_bytes: now.tx_bytes.saturating_sub(before.tx_bytes),
                rx_packets: now.rx_packets.saturating_sub(before.rx_packets),
                tx_packets: now.tx_packets.saturating_sub(before.tx_packets),
                window_nanos: window,
                is_up: read_bool(&e.carrier) || holds(&e.operstate, "up"),
            };
            current.insert(e.name.clone(), now);
            self.samples.insert(e.name.clone(), sample);
            i = i + 1;
        }
        assert(entries@.take(i as int) =~= entries@);
        self.last_counters = current;
    }
}

/// The last entry of a name decides its sample.
pub proof fn law_last_entry_is_sampled(
    samples: Map<Seq<char>, IfaceSample>,
    last: Map<Seq<char>, Counters>,
    entries: Seq<SysfsEntry>,
    elapsed: u64,
    i: int,
)
    requires
        0 <= i < entries.len(),
        forall|j: int| i < j < entries.len() ==> (#[trigger] entries[j]).name@ != entries[i].name@,
    ensures
        resampled(samples, last, entries, elapsed).contains_key(entries[i].name@),
        resampled(samples, last, entries, elapsed)[entries[i].name@] == sampled(
            entries[i],
            last.get(entries[i].name@),
            elapsed,
        ),
        all_counters(entries).contains_key(entries[i].name@),
        all_counters(entries)[entries[i].name@] == counters_in(entries[i]),
    decreases entries.len(),
{
    if i < entries.len() - 1 {
        let head = entries.drop_last();
        assert forall|j: int| i < j < head.len() implies (#[trigger] head[j]).name@
            != head[i].name@ by {
            assert(head[j] == entries[j]);
        }
        assert(entries[entries.len() - 1].name@ != entries[i].name@);
        law_last_entry_is_sampled(samples, last, head, elapsed, i);
    }
}

/// A name that is not seen keeps its sample, and its counters are forgotten.
pub proof fn law_unseen_name_keeps_sample(
    samples: Map<Seq<char>, IfaceSample>,
    last: Map<Seq<char>, Counters>,
    entries: Seq<SysfsEntry>,
    elapsed: u64,
    name: Seq<char>,
)
    requires
        forall|j: int| 0 <= j < entries.len() ==> (#[trigger] entries[j]).name@ != name,
    ensures
        resampled(samples, last, entries, elapsed).get(name) == samples.get(name),
        !all_counters(entries).contains_key(name),
    decreases entries.len(),
{
    if entries.len() > 0 {
        let head = entries.drop_last();
        assert forall|j: int| 0 <= j < head.len() implies (#[trigger] head[j]).name@ != name by {
            assert(head[j] == entries[j]);
        }
        assert(entries[entries.len() - 1].name@ != name);
        law_unseen_name_keeps_sample(samples, last, head, elapsed, name);
    }
}

/// A sample of an interface that was counted before holds how far each of its counters went
/// since, and zero for one that was set back; over the time since, but no less than a
/// millisecond.
pub proof fn law_usage(e: SysfsEntry, last: Counters, elapsed: u64)
    ensures
        ({
            let s = sampled(e, Some(last), elapsed);
            let rx = counter_of(e.rx_bytes) - last.rx_bytes;
            let tx = counter_of(e.tx_bytes) - last.tx_bytes;
            let rx_packets = counter_of(e.rx_packets) - last.rx_packets;
            let tx_packets = counter_of(e.tx_packets) - last.tx_packets;
            &&& rx >= 0 ==> s.rx_bytes == rx
            &&& rx < 0 ==> s.rx_bytes == 0
            &&& tx >= 0 ==> s.tx_bytes == tx
            &&& tx < 0 ==> s.tx_bytes == 0
            &&& rx_packets >= 0 ==> s.rx_packets == rx_packets
            &&& rx_packets < 0 ==> s.rx_packets == 0
            &&& tx_packets >= 0 ==> s.tx_packets == tx_packets
            &&& tx_packets < 0 ==> s.tx_packets == 0
            &&& elapsed >= 1_000_000 ==> s.window_nanos == elapsed
            &&& elapsed < 1_000_000 ==> s.window_nanos == 1_000_000
        }),
{
}

/// An interface that is seen for the first time has no usage yet.
pub proof fn law_no_usage_at_first(e: SysfsEntry, elapsed: u64)
    ensures
        ({
            let s = sampled(e, None, elapsed);
            s.rx_bytes == 0 && s.tx_bytes == 0 && s.rx_packets == 0 && s.tx_packets == 0
        }),
{
}

/// A sampled interface is alive exactly when its carrier is `1` or its state is `up`, seen
/// before or not.
pub proof fn law_liveness(e: SysfsEntry, last: Option<Counters>, elapsed: u64)
    ensures
        sampled(e, last, elapsed).is_up <==> says(e.carrier, "1"@) || says(e.operstate, "up"@),
{
}

/// The counters that are kept for the next time are those of the attributes.
pub proof fn law_counters_kept(e: SysfsEntry)
    ensures
        counters_in(e).rx_bytes == counter_of(e.rx_bytes),
        counters_in(e).tx_bytes == counter_of(e.tx_bytes),
        counters_in(e).rx_packets == counter_of(e.rx_packets),
        counters_in(e).tx_packets == counter_of(e.tx_packets),
{
}

} // verus!
