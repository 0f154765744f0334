//! The network aggregation engine.
//!
//! Wires together interface discovery, usage stats and the scheduling
//! policy into a single component. The application drives it in one of two
//! modes:
//!
//! * [`Mode::Tunnelling`] - a real TUN device feeds raw IP packets into
//!   [`Aggregator::route`], which picks an egress interface per flow.
//! * [`Mode::Simulation`]  - a synthetic traffic generator
//!   ([`crate::generator::PcapGenerator`]) exercises the same code path without root, so
//!   the whole UI is demonstrable on any machine.

use crate::error::Result;
use crate::interface::{
    described, enumerate, kind_of, law_listing, name_key, views, Interface, InterfaceKind,
    InterfaceView, SysfsEntry,
};
use crate::names::{lemma_push_contains, NameMap};
use crate::order::{by_key, law_by_key};
use crate::packet::{parse, parsed, Flow};
use crate::policy::{
    candidate_views, choice, law_chosen_is_enabled_and_healthy,
    law_every_flow_is_given_an_interface, next_turn, select_interface, AggregatorConfig,
    BalanceAlgorithm, CandidateIface, CandidateView, ConfigView, InterfacePolicy, Strategy,
};
use crate::stats::{all_counters, resampled, Counters, IfaceSample, StatsCollector};
use crate::text::{same_text, text_of, trimmed, unsigned_text, without_leading};
use vstd::prelude::*;

verus! {

/// Whether the aggregator is connected to a real kernel interface (TUN) or a
/// built-in traffic simulator.
#[derive(Debug, Clone, Copy, PartialEq, Eq, Structural)]
pub enum Mode {
    Tunnelling,
    Simulation,
}

impl Mode {
    /// The mode's name for display.
    pub fn label(&self) -> (r: &'static str)
        ensures
            r@ == match *self {
                Mode::Tunnelling => "隧道聚合 (TUN)"@,
                Mode::Simulation => "模拟演示 (Simulation)"@,
            },
    {
        match self {
            Mode::Tunnelling => "隧道聚合 (TUN)",
            Mode::Simulation => "模拟演示 (Simulation)",
        }
    }
}

/// The result of routing one packet: its flow, and the interface that the flow leaves by,
/// `None` where no candidate can carry it.
#[derive(Debug)]
pub struct ForwardDecision {
    pub flow: Flow,
    pub interface: Option<String>,
}

impl Clone for ForwardDecision {
    fn clone(&self) -> (r: Self)
        ensures
            r == *self,
    {
        ForwardDecision {
            flow: self.flow.clone(),
            interface: match &self.interface {
                Some(name) => Some(name.clone()),
                None => None,
            },
        }
    }
}

/// A live, mutable aggregation engine.
pub struct Aggregator {
    pub config: AggregatorConfig,
    pub mode: Mode,
    pub stats: StatsCollector,
    /// The interfaces that flows can be given to.
    pub candidates: Vec<CandidateIface>,
    /// Where round-robin is.
    pub rr_counter: u64,
    /// flow-key -> egress-iface cache (for tracing / visibility).
    pub flow_table: NameMap<String>,
}

/// The texts that `m` leads to.
pub open spec fn texts(m: Map<Seq<char>, String>) -> Map<Seq<char>, Seq<char>> {
    m.map_values(|s: String| s@)
}

/// Whether interfaces of the given kind are physical uplinks.
pub open spec fn is_uplink(kind: InterfaceKind) -> bool {
    kind !is Loopback && kind !is Virtual
}

/// The rank of the load of `name`: that of no load where none is known.
pub open spec fn load_for(name: Seq<char>, loads: Map<Seq<char>, Option<i64>>) -> Option<i64> {
    if loads.contains_key(name) {
        loads[name]
    } else {
        Some(0)
    }
}

/// The interface `i` as a candidate.
pub open spec fn candidate_for(
    i: InterfaceView,
    config: ConfigView,
    loads: Map<Seq<char>, Option<i64>>,
) -> CandidateView {
    CandidateView {
        name: i.name,
        kind: i.kind,
        policy: config.policy_of(i.name, i.kind),
        load: load_for(i.name, loads),
        healthy: i.carrier && i.is_up,
    }
}

/// The physical uplinks among `ifaces` as candidates, in the same order.
pub open spec fn candidates_for(
    ifaces: Seq<InterfaceView>,
    config: ConfigView,
    loads: Map<Seq<char>, Option<i64>>,
) -> Seq<CandidateView>
    decreases ifaces.len(),
{
    if ifaces.len() == 0 {
        Seq::empty()
    } else {
        let rest = candidates_for(ifaces.drop_last(), config, loads);
        if is_uplink(ifaces.last().kind) {
            rest.push(candidate_for(ifaces.last(), config, loads))
        } else {
            rest
        }
    }
}

/// The synthetic candidate with the given name, kind, priority and weight.
pub open spec fn sim_candidate(e: (&str, InterfaceKind, u32, u32)) -> CandidateView {
    CandidateView {
        name: e.0@,
        kind: e.1,
        policy: InterfacePolicy { priority: e.2, weight: e.3, enabled: true },
        load: Some(0),
        healthy: true,
    }
}

/// Whether `loads` holds, for every name in `samples`, what `rank` gives for its sample.
pub open spec fn ranked<F: Fn(IfaceSample) -> Option<i64>>(
    rank: F,
    samples: Map<Seq<char>, IfaceSample>,
    loads: Map<Seq<char>, Option<i64>>,
) -> bool {
    &&& loads.dom() == samples.dom()
    &&& forall|name: Seq<char>| #[trigger]
        samples.contains_key(name) ==> call_ensures(rank, (samples[name],), loads[name])
}

/// The ranks that `rank` gives for the samples.
pub fn rank_loads<F: Fn(IfaceSample) -> Option<i64>>(
    samples: &NameMap<IfaceSample>,
    rank: F,
) -> (r: NameMap<Option<i64>>)
    requires
        forall|s: IfaceSample| call_requires(rank, (s,)),
    ensures
        ranked(rank, samples@, r@),
{
    let mut loads: NameMap<Option<i64>> = NameMap::new();
    let n: usize = samples.len();
    let mut i: usize = 0;
    while i < n
        invariant
            i <= n,
            n == samples.names().len(),
            forall|s: IfaceSample| call_requires(rank, (s,)),
            forall|k: Seq<char>| #[trigger]
                samples@.contains_key(k) <==> samples.names().contains(k),
            forall|k: Seq<char>| #[trigger]
                loads@.contains_key(k) <==> samples.names().take(i as int).contains(k),
            forall|k: Seq<char>| #[trigger]
                loads@.contains_key(k) ==> call_ensures(rank, (samples@[k],), loads@[k]),
        decreases n - i,
    {
        let ghost before = samples.names().take(i as int);
        let ghost name = samples.names()[i as int];
        assert(samples.names().take(i + 1) =~= before.push(name));
        proof {
            lemma_push_contains(before, name);
        }
        let sample: IfaceSample = *samples.value_at(i);
        let load: Option<i64> = rank(sample);
        loads.insert(samples.name_at(i).to_string(), load);
        i = i + 1;
    }
    assert(samples.names().take(n as int) =~= samples.names());
    assert(loads@.dom() =~= samples@.dom());
    loads
}

/// The interface that a packet is given to when round-robin is at `turn`; `None` where
/// there is none.
pub open spec fn egress_for(
    config: ConfigView,
    candidates: Seq<CandidateView>,
    turn: u64,
    pkt: Seq<u8>,
) -> Option<Seq<char>> {
    if config.enabled && parsed(pkt) is Some {
        choice(config.strategy, config.algorithm, candidates, parsed(pkt)->0.key(), turn)
    } else {
        None
    }
}

/// Where round-robin is after a packet was routed at `turn`.
pub open spec fn turn_for(
    config: ConfigView,
    candidates: Seq<CandidateView>,
    turn: u64,
    pkt: Seq<u8>,
) -> u64 {
    if config.enabled && parsed(pkt) is Some {
        next_turn(config.strategy, config.algorithm, candidates, turn)
    } else {
        turn
    }
}

impl Aggregator {
    /// The interface that a packet is given to; `None` where there is none.
    pub open spec fn egress(self, pkt: Seq<u8>) -> Option<Seq<char>> {
        egress_for(self.config@, candidate_views(self.candidates@), self.rr_counter, pkt)
    }

    /// Where round-robin is after a packet was routed.
    pub open spec fn turn_after(self, pkt: Seq<u8>) -> u64 {
        turn_for(self.config@, candidate_views(self.candidates@), self.rr_counter, pkt)
    }

    /// The flows and their interfaces after a packet was routed.
    pub open spec fn flows_after(self, pkt: Seq<u8>) -> Map<Seq<char>, Seq<char>> {
        match self.egress(pkt) {
            Some(name) => texts(self.flow_table@).insert(parsed(pkt)->0.key(), name),
            None => texts(self.flow_table@),
        }
    }

    /// Construct an aggregator in the given mode with a validated config.
    pub fn new(config: AggregatorConfig, mode: Mode) -> (r: Result<Self>)
        ensures
            r is Ok <==> config@.valid(),
            match r {
                Ok(a) => {
                    &&& a.config == config
                    &&& a.mode == mode
                    &&& a.stats.samples@ == Map::<Seq<char>, IfaceSample>::empty()
                    &&& a.stats.last_counters@ == Map::<Seq<char>, Counters>::empty()
                    &&& a.candidates@ == Seq::<CandidateIface>::empty()
                    &&& a.rr_counter == 0
                    &&& a.flow_table@ == Map::<Seq<char>, String>::empty()
                },
                Err(e) => config.refused_with(e),
            },
    {
        match config.validate() {
            Ok(_) => Ok(
                Aggregator {
                    config,
                    mode,
                    stats: StatsCollector::default(),
                    candidates: Vec::new(),
                    rr_counter: 0,
                    flow_table: NameMap::new(),
                },
            ),
            Err(e) => Err(e),
        }
    }

    /// Switches to another mode.
    pub fn set_mode(&mut self, mode: Mode)
        ensures
            *final(self) == (Aggregator { mode, ..*old(self) }),
    {
        self.mode = mode;
    }

    /// Take the physical, non-loopback interfaces that `entries` describe as scheduling
    /// candidates, their loads ranked by `rank` from the stats. The base policy priority is
    /// inferred by kind (ethernet > cellular > wifi), overridable through
    /// `config.interfaces`.
    pub fn refresh_candidates<F: Fn(IfaceSample) -> Option<i64>>(
        &mut self,
        entries: &Vec<SysfsEntry>,
        rank: F,
    )
        requires
            forall|s: IfaceSample| call_requires(rank, (s,)),
        ensures
            exists|loads: Map<Seq<char>, Option<i64>>| #[trigger]
                ranked(rank, old(self).stats.samples@, loads) && candidate_views(
                    final(self).candidates@,
                ) == candidates_for(
                    by_key(entries@.map_values(|e: SysfsEntry| described(e)), name_key()),
                    old(self).config@,
                    loads,
                ),
            *final(self) == (Aggregator { candidates: final(self).candidates, ..*old(self) }),
    {
        let loads = rank_loads(&self.stats.samples, rank);
        self.reschedule(entries, &loads);
    }

    /// Update usage/health stats, `elapsed` nanoseconds after the time before, and refresh
    /// candidate liveness: new and removed interfaces and link changes are seen.
    pub fn tick<F: Fn(IfaceSample) -> Option<i64>>(
        &mut self,
        counted: &Vec<SysfsEntry>,
        elapsed: u64,
        entries: &Vec<SysfsEntry>,
        rank: F,
    )
        requires
            forall|s: IfaceSample| call_requires(rank, (s,)),
        ensures
            final(self).stats.samples@ == resampled(
                old(self).stats.samples@,
                old(self).stats.last_counters@,
                counted@,
                elapsed,
            ),
            final(self).stats.last_counters@ == all_counters(counted@),
            exists|loads: Map<Seq<char>, Option<i64>>| #[trigger]
                ranked(rank, final(self).stats.samples@, loads) && candidate_views(
                    final(self).candidates@,
                ) == candidates_for(
                    by_key(entries@.map_values(|e: SysfsEntry| described(e)), name_key()),
                    old(self).config@,
                    loads,
                ),
            *final(self) == (Aggregator {
                stats: final(self).stats,
                candidates: final(self).candidates,
                ..*old(self)
            }),
    {
        self.stats.refresh(counted, elapsed);
        self.refresh_candidates(entries, rank);
    }

    /// Take the physical, non-loopback interfaces that `entries` describe as scheduling
    /// candidates, with the given ranks of their loads.
    pub fn reschedule(&mut self, entries: &Vec<SysfsEntry>, loads: &NameMap<Option<i64>>)
        ensures
            candidate_views(final(self).candidates@) == candidates_for(
                by_key(entries@.map_values(|e: SysfsEntry| described(e)), name_key()),
                old(self).config@,
                loads@,
            ),
            *final(self) == (Aggregator { candidates: final(self).candidates, ..*old(self) }),
    {
        let ifaces = enumerate(entries);
        let ghost all = views(ifaces@);
        let mut next: Vec<CandidateIface> = Vec::new();
        let mut i: usize = 0;
        assert(candidate_views(next@) =~= candidates_for(all.take(0), self.config@, loads@));
        while i < ifaces.len()
            invariant
                i <= ifaces@.len(),
                all == views(ifaces@),
                candidate_views(next@) == candidates_for(all.take(i as int), self.config@, loads@),
            decreases ifaces@.len() - i,
        {
            let iface = &ifaces[i];
            assert(all.take(i + 1).drop_last() =~= all.take(i as int));
            assert(all.take(i + 1).last() == iface@);
            match iface.kind {
                InterfaceKind::Loopback => {},
                InterfaceKind::Virtual => {},
                _ => {
                    let c = self.candidate(iface, loads);
                    let ghost before = candidate_views(next@);
                    let ghost x = c@;
                    next.push(c);
                    assert(candidate_views(next@) =~= before.push(x));
                },
            }
            i = i + 1;
        }
        assert(all.take(i as int) =~= all);
        self.candidates = next;
    }

    fn candidate(&self, iface: &Interface, loads: &NameMap<Option<i64>>) -> (r: CandidateIface)
        ensures
            r@ == candidate_for(iface@, self.config@, loads@),
    {
        let policy = self.config.policy_of(iface.name.as_str(), iface.kind);
        let load: Option<i64> = match loads.get(iface.name.as_str()) {
            Some(l) => *l,
            None => Some(0),
        };
        CandidateIface {
            name: iface.name.clone(),
            kind: iface.kind,
            policy,
            load,
            healthy: iface.carrier && iface.is_up,
        }
    }

    /// Current scheduling candidates.
    pub fn candidates(&self) -> (r: Vec<CandidateIface>)
        ensures
            r@ == self.candidates@,
    {
        let mut out: Vec<CandidateIface> = Vec::new();
        let mut i: usize = 0;
        while i < self.candidates.len()
            invariant
                i <= self.candidates@.len(),
                out@ == self.candidates@.take(i as int),
            decreases self.candidates@.len() - i,
        {
            out.push(self.candidates[i].clone());
            i = i + 1;
            assert(out@ =~= self.candidates@.take(i as int));
        }
        assert(out@ =~= self.candidates@);
        out
    }

    /// Inject synthetic candidates for [`Mode::Simulation`]. Used when the host
    /// has no real physical uplinks so the demo still demonstrates scheduling.
    pub fn inject_sim_candidates(&mut self, entries: &[(&str, InterfaceKind, u32, u32)])
        ensures
            candidate_views(final(self).candidates@) == entries@.map_values(
                |e: (&str, InterfaceKind, u32, u32)| sim_candidate(e),
            ),
            *final(self) == (Aggregator { candidates: final(self).candidates, ..*old(self) }),
    {
        let mut next: Vec<CandidateIface> = Vec::new();
        let mut i: usize = 0;
        let ghost want = entries@.map_values(
            |e: (&str, InterfaceKind, u32, u32)| sim_candidate(e),
        );
        assert(candidate_views(next@) =~= want.take(0));
        while i < entries.len()
            invariant
                i <= entries@.len(),
                want == entries@.map_values(
                    |e: (&str, InterfaceKind, u32, u32)| sim_candidate(e),
                ),
                candidate_views(next@) == want.take(i as int),
            decreases entries@.len() - i,
        {
            let (name, kind, priority, weight) = entries[i];
            let policy = InterfacePolicy { priority, weight, enabled: true };
            let c = CandidateIface {
                name: name.to_string(),
                kind,
                policy,
                load: Some(0),
                healthy: true,
            };
            let ghost before = candidate_views(next@);
            let ghost x = c@;
            next.push(c);
            assert(x == want[i as int]);
            assert(candidate_views(next@) =~= before.push(x));
            assert(want.take(i + 1) =~= before.push(want[i as int]));
            i = i + 1;
        }
        assert(want.take(i as int) =~= want);
        self.candidates = next;
    }

    /// Route a raw IP packet to its egress interface. While aggregation is enabled every
    /// packet with a flow gets a decision; its interface is `None` where no candidate can
    /// carry the flow.
    pub fn route(&mut self, pkt: &[u8]) -> (r: Option<ForwardDecision>)
        ensures
            r is Some <==> old(self).config.enabled && parsed(pkt@) is Some,
            r matches Some(d) ==> parsed(pkt@) == Some(d.flow@) && text_of(d.interface) == old(
                self,
            ).egress(pkt@),
            final(self).rr_counter == old(self).turn_after(pkt@),
            texts(final(self).flow_table@) == old(self).flows_after(pkt@),
            *final(self) == (Aggregator {
                rr_counter: final(self).rr_counter,
                flow_table: final(self).flow_table,
                ..*old(self)
            }),
    {
        if !self.config.enabled {
            return None;
        }
        match parse(pkt) {
            Some(flow) => {
                let key = flow.key();
                let interface = self.select(key);
                Some(ForwardDecision { flow, interface })
            },
            None => None,
        }
    }

    fn select(&mut self, flow_key: String) -> (r: Option<String>)
        ensures
            text_of(r) == choice(
                old(self).config.strategy,
                old(self).config.algorithm,
                candidate_views(old(self).candidates@),
                flow_key@,
                old(self).rr_counter,
            ),
            final(self).rr_counter == next_turn(
                old(self).config.strategy,
                old(self).config.algorithm,
                candidate_views(old(self).candidates@),
                old(self).rr_counter,
            ),
            texts(final(self).flow_table@) == match r {
                Some(name) => texts(old(self).flow_table@).insert(flow_key@, name@),
                None => texts(old(self).flow_table@),
            },
            *final(self) == (Aggregator {
                rr_counter: final(self).rr_counter,
                flow_table: final(self).flow_table,
                ..*old(self)
            }),
    {
        let mut turn: u64 = self.rr_counter;
        let pick = select_interface(
            &self.config,
            self.candidates.as_slice(),
            flow_key.as_str(),
            &mut turn,
        );
        self.rr_counter = turn;
        match pick {
            Some(name) => {
                let kept = name.clone();
                let ghost key = flow_key@;
                let ghost before = self.flow_table@;
                self.flow_table.insert(flow_key, kept);
                assert(texts(self.flow_table@) =~= texts(before).insert(key, name@));
                Some(name)
            },
            None => None,
        }
    }

    /// The rank of the load of the candidate named `name`, the first of that name; that
    /// of no load where there is none.
    pub fn load_of(&self, name: &str) -> (r: Option<i64>)
        ensures
            (exists|i: int|
                0 <= i < self.candidates@.len() && (#[trigger] self.candidates@[i]).name@ == name@
                    && self.candidates@[i].load == r && forall|j: int|
                    0 <= j < i ==> (#[trigger] self.candidates@[j]).name@ != name@) || (r == Some(
                0i64,
            ) && forall|i: int|
                0 <= i < self.candidates@.len() ==> (#[trigger] self.candidates@[i]).name@
                    != name@),
    {
        let mut i: usize = 0;
        while i < self.candidates.len()
            invariant
                i <= self.candidates@.len(),
                forall|j: int| 0 <= j < i ==> (#[trigger] self.candidates@[j]).name@ != name@,
            decreases self.candidates@.len() - i,
        {
            if same_text(self.candidates[i].name.as_str(), name) {
                return self.candidates[i].load;
            }
            i = i + 1;
        }
        Some(0)
    }
}

/// An aggregator that is not enabled drops every packet and stays as it is.
pub proof fn law_disabled_drops(a: Aggregator, pkt: Seq<u8>)
    requires
        !a.config.enabled,
    ensures
        a.egress(pkt) is None,
        a.turn_after(pkt) == a.rr_counter,
        a.flows_after(pkt) == texts(a.flow_table@),
{
}

/// A packet that was routed is on record: its flow leads to the interface that it was
/// given to.
pub proof fn law_routed_flow_is_recorded(a: Aggregator, pkt: Seq<u8>)
    requires
        a.egress(pkt) is Some,
    ensures
        parsed(pkt) is Some,
        a.flows_after(pkt).contains_key(parsed(pkt)->0.key()),
        a.flows_after(pkt)[parsed(pkt)->0.key()] == a.egress(pkt)->0,
{
}

/// A flow that is not routed is not recorded, and no other flow's record changes.
pub proof fn law_other_flows_stay(a: Aggregator, pkt: Seq<u8>, key: Seq<char>)
    requires
        parsed(pkt) matches Some(flow) ==> flow.key() != key,
    ensures
        a.flows_after(pkt).get(key) == texts(a.flow_table@).get(key),
{
}

/// Every candidate stands for a physical uplink, with the policy and health that it has,
/// and every physical uplink has one.
pub proof fn law_candidates_are_the_uplinks(
    ifaces: Seq<InterfaceView>,
    config: ConfigView,
    loads: Map<Seq<char>, Option<i64>>,
)
    ensures
        forall|k: int|
            0 <= k < candidates_for(ifaces, config, loads).len() ==> exists|i: int|
                0 <= i < ifaces.len() && is_uplink((#[trigger] ifaces[i]).kind)
                    && #[trigger] candidates_for(ifaces, config, loads)[k] == candidate_for(
                    ifaces[i],
                    config,
                    loads,
                ),
        forall|i: int|
            0 <= i < ifaces.len() && is_uplink((#[trigger] ifaces[i]).kind) ==> candidates_for(
                ifaces,
                config,
                loads,
            ).contains(candidate_for(ifaces[i], config, loads)),
    decreases ifaces.len(),
{
    if ifaces.len() > 0 {
        let head = ifaces.drop_last();
        law_candidates_are_the_uplinks(head, config, loads);
        let before = candidates_for(head, config, loads);
        let all = candidates_for(ifaces, config, loads);
        assert forall|k: int| 0 <= k < all.len() implies exists|i: int|
            0 <= i < ifaces.len() && is_uplink((#[trigger] ifaces[i]).kind) && #[trigger] all[k]
                == candidate_for(ifaces[i], config, loads) by {
            if k < before.len() {
                assert(all[k] == before[k]);
                let i = choose|i: int|
                    0 <= i < head.len() && is_uplink((#[trigger] head[i]).kind) && before[k]
                        == candidate_for(head[i], config, loads);
                assert(ifaces[i] == head[i]);
            } else {
                assert(is_uplink(ifaces[ifaces.len() - 1].kind));
            }
        }
        assert forall|i: int|
            0 <= i < ifaces.len() && is_uplink((#[trigger] ifaces[i]).kind) implies all.contains(
            candidate_for(ifaces[i], config, loads),
        ) by {
            let c = candidate_for(ifaces[i], config, loads);
            if i < head.len() {
                assert(head[i] == ifaces[i]);
                assert(before.contains(c));
                assert(all[before.index_of(c)] == c);
            } else {
                assert(all[before.len() as int] == c);
            }
        }
    }
}

/// Whether an entry's attributes say that its link can carry traffic: its carrier is `1`,
/// and its kernel flags, a hexadecimal number, have the lowest bit set.
pub open spec fn link_is_fit(e: SysfsEntry) -> bool {
    &&& e.carrier matches Some(t) && trimmed(t@) == seq!['1']
    &&& e.flags matches Some(t) && unsigned_text(
        without_leading(trimmed(t@), seq!['0', 'x']),
        16,
    ) matches Some(n) && n % 2 == 1
}

proof fn lemma_fit(e: SysfsEntry)
    ensures
        link_is_fit(e) <==> described(e).carrier && described(e).is_up,
{
    reveal_strlit("1");
    reveal_strlit("0x");
    assert("1"@ =~= seq!['1']);
    assert("0x"@ =~= seq!['0', 'x']);
}

/// A candidate stands for one of the entries, of its name and kind, and it is healthy
/// exactly when that entry has a carrier and is administratively up, of whatever kind it
/// is. Loopback and virtual interfaces are no candidates. Its policy is the one that the
/// settings give its name, and else the one of its kind.
pub proof fn law_candidate_health(
    entries: Seq<SysfsEntry>,
    config: ConfigView,
    loads: Map<Seq<char>, Option<i64>>,
    k: int,
)
    requires
        0 <= k < candidates_for(
            by_key(entries.map_values(|e: SysfsEntry| described(e)), name_key()),
            config,
            loads,
        ).len(),
    ensures
        exists|i: int|
            0 <= i < entries.len() && {
                let c = candidates_for(
                    by_key(entries.map_values(|e: SysfsEntry| described(e)), name_key()),
                    config,
                    loads,
                )[k];
                let e = #[trigger] entries[i];
                &&& c.name == e.name@
                &&& c.kind == kind_of(e.name@)
                &&& c.kind != InterfaceKind::Loopback && c.kind != InterfaceKind::Virtual
                &&& c.healthy <==> link_is_fit(e)
                &&& c.policy == config.policy_of(e.name@, kind_of(e.name@))
                &&& loads.contains_key(e.name@) ==> c.load == loads[e.name@]
                &&& !loads.contains_key(e.name@) ==> c.load == Some(0i64)
            },
{
    let given = entries.map_values(|e: SysfsEntry| described(e));
    let all = by_key(given, name_key());
    let cs = candidates_for(all, config, loads);
    law_by_key(given, name_key());
    law_candidates_are_the_uplinks(all, config, loads);
    let m = choose|m: int|
        0 <= m < all.len() && is_uplink((#[trigger] all[m]).kind) && cs[k] == candidate_for(
            all[m],
            config,
            loads,
        );
    law_listing(entries, m);
    let i = choose|i: int| 0 <= i < entries.len() && #[trigger] described(entries[i]) == all[m];
    lemma_fit(entries[i]);
    assert(described(entries[i]) == all[m]);
}

/// Every interface that is neither loopback nor virtual is a candidate, healthy exactly
/// when its entry has a carrier and is administratively up.
pub proof fn law_every_uplink_is_candidate(
    entries: Seq<SysfsEntry>,
    config: ConfigView,
    loads: Map<Seq<char>, Option<i64>>,
    i: int,
)
    requires
        0 <= i < entries.len(),
        kind_of(entries[i].name@) != InterfaceKind::Loopback,
        kind_of(entries[i].name@) != InterfaceKind::Virtual,
    ensures
        ({
            let cs = candidates_for(
                by_key(entries.map_values(|e: SysfsEntry| described(e)), name_key()),
                config,
                loads,
            );
            exists|k: int|
                0 <= k < cs.len() && (#[trigger] cs[k]).name == entries[i].name@ && cs[k].kind
                    == kind_of(entries[i].name@) && (cs[k].healthy <==> link_is_fit(entries[i]))
                    && cs[k].policy == config.policy_of(
                    entries[i].name@,
                    kind_of(entries[i].name@),
                )
        }),
{
    let given = entries.map_values(|e: SysfsEntry| described(e));
    let all = by_key(given, name_key());
    let cs = candidates_for(all, config, loads);
    law_listing(entries, i);
    law_candidates_are_the_uplinks(all, config, loads);
    let x = described(entries[i]);
    let m = all.index_of(x);
    assert(all[m] == x);
    lemma_fit(entries[i]);
    let c = candidate_for(all[m], config, loads);
    assert(cs.contains(c));
    let k = cs.index_of(c);
    assert(cs[k] == c);
}

/// An interface whose entries all lack a carrier or are administratively down is never
/// chosen, whatever the strategy.
pub proof fn law_unfit_link_is_never_chosen(
    entries: Seq<SysfsEntry>,
    config: ConfigView,
    loads: Map<Seq<char>, Option<i64>>,
    flow_key: Seq<char>,
    turn: u64,
    name: Seq<char>,
)
    requires
        forall|i: int|
            0 <= i < entries.len() && (#[trigger] entries[i]).name@ == name ==> !link_is_fit(
                entries[i],
            ),
    ensures
        choice(
            config.strategy,
            config.algorithm,
            candidates_for(
                by_key(entries.map_values(|e: SysfsEntry| described(e)), name_key()),
                config,
                loads,
            ),
            flow_key,
            turn,
        ) != Some(name),
{
    let cs = candidates_for(
        by_key(entries.map_values(|e: SysfsEntry| described(e)), name_key()),
        config,
        loads,
    );
    law_chosen_is_enabled_and_healthy(config.strategy, config.algorithm, cs, flow_key, turn);
    let c = choice(config.strategy, config.algorithm, cs, flow_key, turn);
    if c == Some(name) {
        let k = choose|k: int|
            0 <= k < cs.len() && (#[trigger] cs[k]).policy.enabled && cs[k].healthy && cs[k].name
                == name;
        law_candidate_health(entries, config, loads, k);
        assert(cs[k].healthy);
    }
}

/// While aggregation is enabled, every packet with a flow, of whatever protocol and
/// length, goes where its flow's key is sent, and moves round-robin as its flow does; it is
/// recorded where it goes somewhere. While it is not, or for packets without a flow,
/// nothing happens.
pub proof fn law_every_flow_is_routed(a: Aggregator, pkt: Seq<u8>)
    ensures
        a.config.enabled ==> (parsed(pkt) matches Some(f) ==> {
            let links = candidate_views(a.candidates@);
            let to = choice(
                a.config.strategy,
                a.config.algorithm,
                links,
                f.key(),
                a.rr_counter,
            );
            &&& a.egress(pkt) == to
            &&& a.turn_after(pkt) == next_turn(
                a.config.strategy,
                a.config.algorithm,
                links,
                a.rr_counter,
            )
            &&& to matches Some(name) ==> a.flows_after(pkt).contains_key(f.key()) && a.flows_after(
                pkt,
            )[f.key()] == name
            &&& to is None ==> a.flows_after(pkt) == texts(a.flow_table@)
        }),
        !a.config.enabled || parsed(pkt) is None ==> a.egress(pkt) is None && a.turn_after(pkt)
            == a.rr_counter && a.flows_after(pkt) == texts(a.flow_table@),
{
}

/// A packet of an enabled aggregator is given an interface whenever a candidate is enabled
/// and healthy (with a load below infinity, where the least loaded is asked for), and the
/// interface is such a candidate.
pub proof fn law_packet_is_given_a_fit_link(a: Aggregator, pkt: Seq<u8>, i: int)
    requires
        a.config.enabled,
        parsed(pkt) is Some,
        0 <= i < a.candidates@.len(),
        a.candidates@[i].policy.enabled,
        a.candidates@[i].healthy,
        a.config.strategy == Strategy::LoadBalance && a.config.algorithm
            == BalanceAlgorithm::LeastLoaded ==> a.candidates@[i].load is Some,
    ensures
        a.egress(pkt) matches Some(name) && exists|k: int|
            0 <= k < a.candidates@.len() && (#[trigger] a.candidates@[k]).policy.enabled
                && a.candidates@[k].healthy && a.candidates@[k].name@ == name,
{
    let links = candidate_views(a.candidates@);
    let key = parsed(pkt)->0.key();
    assert(links[i].policy.enabled && links[i].healthy);
    law_every_flow_is_given_an_interface(
        a.config.strategy,
        a.config.algorithm,
        links,
        key,
        a.rr_counter,
    );
    law_chosen_is_enabled_and_healthy(
        a.config.strategy,
        a.config.algorithm,
        links,
        key,
        a.rr_counter,
    );
    let name = a.egress(pkt)->0;
    let k = choose|k: int|
        0 <= k < links.len() && (#[trigger] links[k]).policy.enabled && links[k].healthy
            && links[k].name == name;
    assert(a.candidates@[k].name@ == name);
}

/// A synthetic candidate has the name, kind, priority and weight that it is given, serves
/// traffic and has no load.
pub proof fn law_synthetic_candidate(
    name: &str,
    kind: InterfaceKind,
    priority: u32,
    weight: u32,
)
    ensures
        sim_candidate((name, kind, priority, weight)) == (CandidateView {
            name: name@,
            kind,
            policy: InterfacePolicy { priority, weight, enabled: true },
            load: Some(0),
            healthy: true,
        }),
{
}

/// The candidates of two listings, one behind the other, are those of the first and then
/// those of the second: one for an interface that is neither loopback nor virtual, and
/// none for another.
pub proof fn law_candidates_in_order(
    a: Seq<InterfaceView>,
    b: Seq<InterfaceView>,
    i: InterfaceView,
    config: ConfigView,
    loads: Map<Seq<char>, Option<i64>>,
)
    ensures
        candidates_for(a + b, config, loads) == candidates_for(a, config, loads) + candidates_for(
            b,
            config,
            loads,
        ),
        candidates_for(seq![i], config, loads).len() == if i.kind == InterfaceKind::Loopback
            || i.kind == InterfaceKind::Virtual {
            0nat
        } else {
            1nat
        },
    decreases b.len(),
{
    let (x, y) = (candidates_for(a, config, loads), candidates_for(b, config, loads));
    assert(seq![i].drop_last() =~= Seq::<InterfaceView>::empty());
    assert(candidates_for(Seq::<InterfaceView>::empty(), config, loads).len() == 0);
    if b.len() == 0 {
        assert(a + b =~= a);
        assert(x + y =~= x);
    } else {
        law_candidates_in_order(a, b.drop_last(), i, config, loads);
        assert((a + b).drop_last() =~= a + b.drop_last());
        assert((a + b).last() == b.last());
        assert(candidates_for(a + b, config, loads) =~= x + y);
    }
}

} // verus!
