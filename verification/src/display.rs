//! What the application shows: labels, counts and summaries.

use crate::aggregator::texts;
use crate::interface::InterfaceKind;
use crate::names::NameMap;
use crate::policy::{candidate_views, CandidateIface, CandidateView};
use crate::text::{
    lemma_text_le_antisymmetric, lemma_text_le_total, lemma_text_le_transitive, not_after, numeral,
    push_numeral, same_text, text_le,
};
use vstd::prelude::*;

verus! {

/// Theme selection mode.
#[derive(Debug, Clone, Copy, PartialEq, Eq, Structural)]
pub enum ThemeMode {
    Dark,
    Light,
    System,
}

impl ThemeMode {
    /// The mode after this one.
    pub open spec fn next(self) -> ThemeMode {
        match self {
            ThemeMode::Dark => ThemeMode::Light,
            ThemeMode::Light => ThemeMode::System,
            ThemeMode::System => ThemeMode::Dark,
        }
    }

    /// The mode's name for display.
    pub fn label(self) -> (r: &'static str)
        ensures
            r@ == match self {
                ThemeMode::Dark => "暗色"@,
                ThemeMode::Light => "亮色"@,
                ThemeMode::System => "跟随系统"@,
            },
    {
        match self {
            ThemeMode::Dark => "暗色",
            ThemeMode::Light => "亮色",
            ThemeMode::System => "跟随系统",
        }
    }

    /// The mode after this one: dark, light, follow the system, and round.
    pub fn cycle(self) -> (r: Self)
        ensures
            r == self.next(),
            r.next().next() == self,
    {
        match self {
            ThemeMode::Dark => ThemeMode::Light,
            ThemeMode::Light => ThemeMode::System,
            ThemeMode::System => ThemeMode::Dark,
        }
    }
}

/// The pages of the window.
#[derive(Debug, Clone, Copy, PartialEq, Eq, Structural)]
pub enum Tab {
    Dashboard,
    Interfaces,
    Policy,
    Statistics,
}

impl Tab {
    /// The page's title.
    pub fn title(self) -> (r: &'static str)
        ensures
            r@ == match self {
                Tab::Dashboard => "仪表盘"@,
                Tab::Interfaces => "接口监控"@,
                Tab::Policy => "策略配置"@,
                Tab::Statistics => "性能统计"@,
            },
    {
        match self {
            Tab::Dashboard => "仪表盘",
            Tab::Interfaces => "接口监控",
            Tab::Policy => "策略配置",
            Tab::Statistics => "性能统计",
        }
    }
}

/// The kind's name for display.
pub fn kind_label(k: InterfaceKind) -> (r: &'static str)
    ensures
        r@ == match k {
            InterfaceKind::Ethernet => "以太网"@,
            InterfaceKind::Wifi => "Wi-Fi"@,
            InterfaceKind::Cellular => "移动数据"@,
            InterfaceKind::Loopback => "回环"@,
            InterfaceKind::Virtual => "虚拟"@,
            InterfaceKind::Other => "其他"@,
        },
{
    match k {
        InterfaceKind::Ethernet => "以太网",
        InterfaceKind::Wifi => "Wi-Fi",
        InterfaceKind::Cellular => "移动数据",
        InterfaceKind::Loopback => "回环",
        InterfaceKind::Virtual => "虚拟",
        InterfaceKind::Other => "其他",
    }
}

/// How many of `s` are enabled.
pub open spec fn enabled_count(s: Seq<CandidateView>) -> nat
    decreases s.len(),
{
    if s.len() == 0 {
        0
    } else {
        enabled_count(s.drop_last()) + if s.last().policy.enabled {
            1nat
        } else {
            0
        }
    }
}

/// How many of `s` are healthy.
pub open spec fn healthy_count(s: Seq<CandidateView>) -> nat
    decreases s.len(),
{
    if s.len() == 0 {
        0
    } else {
        healthy_count(s.drop_last()) + if s.last().healthy {
            1nat
        } else {
            0
        }
    }
}

/// How many candidates are enabled, and how many are healthy.
pub fn link_counts(candidates: &Vec<CandidateIface>) -> (r: (usize, usize))
    ensures
        r.0 == enabled_count(candidate_views(candidates@)),
        r.1 == healthy_count(candidate_views(candidates@)),
{
    let ghost all = candidate_views(candidates@);
    let mut enabled: usize = 0;
    let mut healthy: usize = 0;
    let mut i: usize = 0;
    assert(all.take(0) =~= Seq::<CandidateView>::empty());
    while i < candidates.len()
        invariant
            i <= candidates@.len(),
            all == candidate_views(candidates@),
            enabled == enabled_count(all.take(i as int)),
            healthy == healthy_count(all.take(i as int)),
            enabled <= i,
            healthy <= i,
        decreases candidates@.len() - i,
    {
        assert(all.take(i + 1).drop_last() =~= all.take(i as int));
        assert(all.take(i + 1).last() == candidates@[i as int]@);
        if candidates[i].policy.enabled {
            enabled = enabled + 1;
        }
        if candidates[i].healthy {
            healthy = healthy + 1;
        }
        i = i + 1;
    }
    assert(all.take(i as int) =~= all);
    (enabled, healthy)
}

/// `t`, a count of names in the order of names, with one more of `name`.
pub open spec fn tallied(t: Seq<(Seq<char>, nat)>, name: Seq<char>) -> Seq<(Seq<char>, nat)>
    decreases t.len(),
{
    if t.len() == 0 {
        seq![(name, 1)]
    } else {
        let (last, count) = t.last();
        if last == name {
            t.drop_last().push((last, count + 1))
        } else if text_le(last, name) {
            t.push((name, 1))
        } else {
            tallied(t.drop_last(), name).push(t.last())
        }
    }
}

/// How often each name comes in `s`, in the order of names.
pub open spec fn tally(s: Seq<Seq<char>>) -> Seq<(Seq<char>, nat)>
    decreases s.len(),
{
    if s.len() == 0 {
        Seq::empty()
    } else {
        tallied(tally(s.drop_last()), s.last())
    }
}

/// The text of a count of names: `name=count`, separated by commas.
pub open spec fn tally_text(t: Seq<(Seq<char>, nat)>) -> Seq<char>
    decreases t.len(),
{
    if t.len() == 0 {
        Seq::empty()
    } else {
        let (name, count) = t.last();
        let entry = name + seq!['='] + numeral(count, 10);
        if t.len() == 1 {
            entry
        } else {
            tally_text(t.drop_last()) + seq![',', ' '] + entry
        }
    }
}

/// What a count of names holds.
spec fn tally_views(t: Seq<(String, u64)>) -> Seq<(Seq<char>, nat)> {
    t.map_values(|e: (String, u64)| (e.0@, e.1 as nat))
}

/// The interfaces of the flows of a flow table, in the order of the flows.
pub open spec fn flow_egresses(flows: NameMap<String>) -> Seq<Seq<char>> {
    flows.names().map_values(|key: Seq<char>| texts(flows@)[key])
}

/// Counts `name` in `t`, after `seen` others were counted.
fn count_name(t: &mut Vec<(String, u64)>, name: &str, seen: usize)
    requires
        seen < usize::MAX,
        forall|i: int| 0 <= i < old(t)@.len() ==> (#[trigger] old(t)@[i]).1 <= seen,
    ensures
        tally_views(final(t)@) == tallied(tally_views(old(t)@), name@),
        forall|i: int| 0 <= i < final(t)@.len() ==> (#[trigger] final(t)@[i]).1 <= seen + 1,
{
    let ghost before = tally_views(t@);
    let mut p: usize = t.len();
    while p > 0 && !same_text(t[p - 1].0.as_str(), name) && !not_after(t[p - 1].0.as_str(), name)
        invariant
            p <= t@.len(),
            t@ == old(t)@,
            before == tally_views(t@),
            forall|j: int|
                p <= j < before.len() ==> (#[trigger] before[j]).0 != name@ && !text_le(
                    before[j].0,
                    name@,
                ),
        decreases p,
    {
        p = p - 1;
    }
    proof {
        lemma_tallied_at(before, name@, p as int);
    }
    if p > 0 && same_text(t[p - 1].0.as_str(), name) {
        let count: u64 = t[p - 1].1 + 1;
        t[p - 1] = (name.to_string(), count);
        assert(tally_views(t@) =~= before.update(p - 1, (name@, count as nat)));
    } else {
        t.insert(p, (name.to_string(), 1));
        assert(tally_views(t@) =~= before.insert(p as int, (name@, 1)));
    }
}

proof fn lemma_tallied_at(t: Seq<(Seq<char>, nat)>, name: Seq<char>, p: int)
    requires
        0 <= p <= t.len(),
        forall|j: int|
            p <= j < t.len() ==> (#[trigger] t[j]).0 != name && !text_le(t[j].0, name),
        p > 0 ==> t[p - 1].0 == name || text_le(t[p - 1].0, name),
    ensures
        tallied(t, name) == if p > 0 && t[p - 1].0 == name {
            t.update(p - 1, (name, t[p - 1].1 + 1))
        } else {
            t.insert(p, (name, 1))
        },
    decreases t.len(),
{
    if p == t.len() {
        if p > 0 {
            assert(t.insert(p, (name, 1)) =~= t.push((name, 1)));
            assert(t.update(p - 1, (name, t[p - 1].1 + 1)) =~= t.drop_last().push(
                (name, t[p - 1].1 + 1),
            ));
        } else {
            assert(t.insert(p, (name, 1)) =~= seq![(name, 1nat)]);
        }
    } else {
        let head = t.drop_last();
        lemma_tallied_at(head, name, p);
        if p > 0 && t[p - 1].0 == name {
            assert(t.update(p - 1, (name, t[p - 1].1 + 1)) =~= head.update(
                p - 1,
                (name, t[p - 1].1 + 1),
            ).push(t.last()));
        } else {
            assert(t.insert(p, (name, 1)) =~= head.insert(p, (name, 1)).push(t.last()));
        }
    }
}

/// How many flows of a flow table leave by each interface: `name=count` in the order of
/// names, separated by commas.
pub fn flow_distribution(flows: &NameMap<String>) -> (r: String)
    ensures
        r@ == tally_text(tally(flow_egresses(*flows))),
{
    let n: usize = flows.len();
    let ghost all = flow_egresses(*flows);
    let mut t: Vec<(String, u64)> = Vec::new();
    let mut i: usize = 0;
    assert(tally_views(t@) =~= tally(all.take(0)));
    while i < n
        invariant
            i <= n,
            n == flows.names().len(),
            all == flow_egresses(*flows),
            tally_views(t@) == tally(all.take(i as int)),
            forall|j: int| 0 <= j < t@.len() ==> (#[trigger] t@[j]).1 <= i,
        decreases n - i,
    {
        assert(all.take(i + 1).drop_last() =~= all.take(i as int));
        let name = flows.value_at(i);
        assert(all.take(i + 1).last() == name@);
        count_name(&mut t, name.as_str(), i);
        i = i + 1;
    }
    assert(all.take(i as int) =~= all);
    let ghost counts = tally_views(t@);
    proof {
        reveal_strlit(", ");
        reveal_strlit("=");
    }
    let mut out = String::new();
    let mut k: usize = 0;
    assert(counts.take(0) =~= Seq::<(Seq<char>, nat)>::empty());
    assert(out@ =~= tally_text(counts.take(0)));
    while k < t.len()
        invariant
            k <= t@.len(),
            counts == tally_views(t@),
            out@ == tally_text(counts.take(k as int)),
            ", "@ == seq![',', ' '],
            "="@ == seq!['='],
        decreases t@.len() - k,
    {
        assert(counts.take(k + 1).drop_last() =~= counts.take(k as int));
        if k > 0 {
            out.append(", ");
        }
        out.append(t[k].0.as_str());
        out.append("=");
        push_numeral(&mut out, t[k].1, 10);
        k = k + 1;
        assert(out@ =~= tally_text(counts.take(k as int)));
    }
    assert(counts.take(k as int) =~= counts);
    out
}

/// Whether each name comes once in `t`, in the order of names.
pub open spec fn each_once(t: Seq<(Seq<char>, nat)>) -> bool {
    forall|i: int, j: int|
        0 <= i < j < t.len() ==> text_le((#[trigger] t[i]).0, (#[trigger] t[j]).0) && t[i].0
            != t[j].0
}

/// The count of `name` in `t`.
pub open spec fn count_of(t: Seq<(Seq<char>, nat)>, name: Seq<char>) -> nat
    decreases t.len(),
{
    if t.len() == 0 {
        0
    } else {
        count_of(t.drop_last(), name) + if t.last().0 == name {
            t.last().1
        } else {
            0
        }
    }
}

proof fn lemma_tallied_count(t: Seq<(Seq<char>, nat)>, x: Seq<char>, name: Seq<char>)
    ensures
        count_of(tallied(t, x), name) == count_of(t, name) + if x == name {
            1nat
        } else {
            0
        },
    decreases t.len(),
{
    let r = tallied(t, x);
    if t.len() == 0 {
        assert(r.drop_last() =~= t);
    } else {
        let (last, count) = t.last();
        if last == x {
            assert(r.drop_last() =~= t.drop_last());
        } else if text_le(last, x) {
            assert(r.drop_last() =~= t);
        } else {
            lemma_tallied_count(t.drop_last(), x, name);
            assert(r.drop_last() =~= tallied(t.drop_last(), x));
        }
    }
}

proof fn lemma_tallied_each_once(t: Seq<(Seq<char>, nat)>, x: Seq<char>)
    requires
        each_once(t),
    ensures
        each_once(tallied(t, x)),
        tallied(t, x).len() > 0,
        tallied(t, x).last().0 == x || (t.len() > 0 && tallied(t, x).last().0 == t.last().0),
    decreases t.len(),
{
    let r = tallied(t, x);
    if t.len() > 0 {
        let head = t.drop_last();
        let (last, count) = t.last();
        assert forall|i: int, j: int| 0 <= i < j < head.len() implies text_le(
            (#[trigger] head[i]).0,
            (#[trigger] head[j]).0,
        ) && head[i].0 != head[j].0 by {
            assert(head[i] == t[i] && head[j] == t[j]);
        }
        if last == x {
            assert forall|i: int, j: int| 0 <= i < j < r.len() implies text_le(
                (#[trigger] r[i]).0,
                (#[trigger] r[j]).0,
            ) && r[i].0 != r[j].0 by {
                assert(r[i].0 == t[i].0 && r[j].0 == t[j].0);
            }
        } else if text_le(last, x) {
            assert forall|i: int, j: int| 0 <= i < j < r.len() implies text_le(
                (#[trigger] r[i]).0,
                (#[trigger] r[j]).0,
            ) && r[i].0 != r[j].0 by {
                if j == t.len() && i < t.len() - 1 {
                    assert(text_le(t[i].0, t[t.len() - 1].0) && t[i].0 != t[t.len() - 1].0);
                    lemma_text_le_transitive(t[i].0, last, x);
                    if t[i].0 == x {
                        lemma_text_le_antisymmetric(last, x);
                    }
                } else if j < t.len() {
                    assert(r[i] == t[i] && r[j] == t[j]);
                }
            }
        } else {
            lemma_tallied_each_once(head, x);
            lemma_text_le_total(last, x);
            let q = tallied(head, x);
            assert(r =~= q.push(t.last()));
            let top = q.last().0;
            assert(text_le(top, last) && top != last) by {
                if top != x {
                    assert(text_le(t[t.len() - 2].0, t[t.len() - 1].0));
                }
            }
            assert forall|i: int, j: int| 0 <= i < j < r.len() implies text_le(
                (#[trigger] r[i]).0,
                (#[trigger] r[j]).0,
            ) && r[i].0 != r[j].0 by {
                if j == q.len() {
                    if i < q.len() - 1 {
                        assert(text_le(q[i].0, q[q.len() - 1].0));
                        lemma_text_le_transitive(q[i].0, top, last);
                        if q[i].0 == last {
                            lemma_text_le_antisymmetric(top, last);
                        }
                    }
                } else {
                    assert(r[i] == q[i] && r[j] == q[j]);
                }
            }
        }
    }
}

/// The summary names each interface once, in the order of names, with the number of its
/// flows.
pub proof fn law_tally_counts(s: Seq<Seq<char>>, name: Seq<char>)
    ensures
        each_once(tally(s)),
        count_of(tally(s), name) == s.to_multiset().count(name),
    decreases s.len(),
{
    broadcast use vstd::multiset::group_multiset_axioms;
    broadcast use vstd::seq_lib::group_to_multiset_ensures;

    if s.len() == 0 {
        assert(!s.contains(name));
    } else {
        law_tally_counts(s.drop_last(), name);
        lemma_tallied_each_once(tally(s.drop_last()), s.last());
        lemma_tallied_count(tally(s.drop_last()), s.last(), name);
        assert(s =~= s.drop_last().push(s.last()));
    }
}

/// The counts of links are the numbers of candidates that are enabled and that are healthy,
/// each counted by itself.
pub proof fn law_link_counts(s: Seq<CandidateView>)
    ensures
        enabled_count(s) == s.filter(|c: CandidateView| c.policy.enabled).len(),
        healthy_count(s) == s.filter(|c: CandidateView| c.healthy).len(),
    decreases s.len(),
{
    reveal(Seq::filter);
    if s.len() > 0 {
        law_link_counts(s.drop_last());
    }
}

/// Each further interface is written behind the others, after a comma and a space, as its
/// name, an equals sign and its count.
pub proof fn law_tally_text_grows(t: Seq<(Seq<char>, nat)>, name: Seq<char>, count: nat)
    ensures
        tally_text(Seq::<(Seq<char>, nat)>::empty()) == Seq::<char>::empty(),
        tally_text(t.push((name, count))) == if t.len() == 0 {
            name + seq!['='] + numeral(count, 10)
        } else {
            tally_text(t) + seq![',', ' '] + (name + seq!['='] + numeral(count, 10))
        },
{
    assert(t.push((name, count)).drop_last() =~= t);
}

/// Every flow of the flow table is counted under the interface that it is recorded with.
pub proof fn law_every_flow_is_counted(flows: NameMap<String>, i: int)
    requires
        0 <= i < flows.names().len(),
    ensures
        flow_egresses(flows).len() == flows.names().len(),
        flow_egresses(flows)[i] == texts(flows@)[flows.names()[i]],
{
}

proof fn lemma_tallied_positive(t: Seq<(Seq<char>, nat)>, x: Seq<char>)
    requires
        forall|i: int| 0 <= i < t.len() ==> (#[trigger] t[i]).1 > 0,
    ensures
        forall|i: int| 0 <= i < tallied(t, x).len() ==> (#[trigger] tallied(t, x)[i]).1 > 0,
    decreases t.len(),
{
    if t.len() > 0 {
        let head = t.drop_last();
        assert forall|i: int| 0 <= i < head.len() implies (#[trigger] head[i]).1 > 0 by {
            assert(head[i] == t[i]);
        }
        lemma_tallied_positive(head, x);
        assert(t[t.len() - 1].1 > 0);
        let r = tallied(t, x);
        assert forall|i: int| 0 <= i < r.len() implies (#[trigger] r[i]).1 > 0 by {
            let (last, count) = t.last();
            if last == x || text_le(last, x) {
                if i < head.len() {
                    assert(r[i] == t[i]);
                }
            } else if i < tallied(head, x).len() {
                assert(r[i] == tallied(head, x)[i]);
            }
        }
    }
}

/// The summary names no interface without flows.
pub proof fn law_tally_names_no_other(s: Seq<Seq<char>>, i: int)
    requires
        0 <= i < tally(s).len(),
    ensures
        tally(s)[i].1 > 0,
    decreases s.len(),
{
    if s.len() > 0 {
        let head = s.drop_last();
        assert forall|j: int| 0 <= j < tally(head).len() implies (#[trigger] tally(head)[j]).1
            > 0 by {
            law_tally_names_no_other(head, j);
        }
        lemma_tallied_positive(tally(head), s.last());
    }
}

/// Dark is followed by light, light by what the system shows, and that by dark.
pub proof fn law_theme_order(m: ThemeMode)
    ensures
        m is Dark <==> m.next() is Light,
        m is Light <==> m.next() is System,
        m is System <==> m.next() is Dark,
{
}

} // verus!
