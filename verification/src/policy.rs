//! Bandwidth allocation policies: load balancing, failover and priorities.

use crate::error::{NetmuxError, Result};
use crate::interface::InterfaceKind;
use crate::names::NameMap;
use crate::order::{by_key, in_order, law_by_key, lemma_placed_at, placed};
use crate::text::{lemma_text_le_antisymmetric, not_after, text_le, text_of};
use vstd::arithmetic::div_mod::{
    lemma_add_mod_noop, lemma_breakdown, lemma_mod_bound, lemma_mod_sub_multiples_vanish,
    lemma_small_mod,
};
use vstd::prelude::*;
use vstd::seq_lib::{lemma_multiset_commutative, lemma_seq_union_to_multiset_commutative};
use vstd::utf8::encode_utf8;

verus! {

/// The top-level aggregation strategy.
#[derive(Debug, Clone, Copy, PartialEq, Eq, Structural)]
pub enum Strategy {
    /// Distribute flows across all usable interfaces.
    LoadBalance,
    /// Send all traffic over the highest-priority usable interface, switch on failure.
    Failover,
}

/// How flows are assigned inside [`Strategy::LoadBalance`].
#[derive(Debug, Clone, Copy, PartialEq, Eq, Structural)]
pub enum BalanceAlgorithm {
    /// Cycle interfaces in fixed order.
    RoundRobin,
    /// Hash the 5-tuple to keep a flow pinned to an interface.
    Hash,
    /// Send each flow to the currently least-loaded interface.
    LeastLoaded,
}

/// Per-interface configuration: priority and relative weight.
#[derive(Debug, Clone, Copy, PartialEq, Eq, Structural)]
pub struct InterfacePolicy {
    /// Higher number = preferred. Used by failover, and as a tie-break between equal
    /// loads.
    pub priority: u32,
    /// Relative weight used by weighted load balancing (1..=100).
    pub weight: u32,
    /// Whether this interface may serve traffic.
    pub enabled: bool,
}

/// The policy of an interface that nothing was said of.
pub open spec fn default_policy() -> InterfacePolicy {
    InterfacePolicy { priority: 10, weight: 1, enabled: true }
}

/// The priority of an interface of the given kind that has no policy of its own.
pub open spec fn base_priority(kind: InterfaceKind) -> u32 {
    match kind {
        InterfaceKind::Ethernet => 30,
        InterfaceKind::Cellular => 20,
        InterfaceKind::Wifi => 10,
        _ => 5,
    }
}

/// The policy of an interface of the given kind that has none of its own.
pub open spec fn base_policy(kind: InterfaceKind) -> InterfacePolicy {
    InterfacePolicy { priority: base_priority(kind), ..default_policy() }
}

impl Default for InterfacePolicy {
    fn default() -> (r: Self)
        ensures
            r == default_policy(),
    {
        InterfacePolicy { priority: 10, weight: 1, enabled: true }
    }
}

impl InterfacePolicy {
    /// The same policy with the priority `p`.
    pub fn with_priority(self, p: u32) -> (r: Self)
        ensures
            r == (InterfacePolicy { priority: p, ..self }),
    {
        InterfacePolicy { priority: p, weight: self.weight, enabled: self.enabled }
    }

    /// The policy of an interface of the given kind that has none of its own.
    pub fn for_kind(kind: InterfaceKind) -> (r: Self)
        ensures
            r == base_policy(kind),
    {
        let base: u32 = match kind {
            InterfaceKind::Ethernet => 30,
            InterfaceKind::Cellular => 20,
            InterfaceKind::Wifi => 10,
            _ => 5,
        };
        InterfacePolicy::default().with_priority(base)
    }
}

/// Complete user-configurable aggregation settings.
pub struct AggregatorConfig {
    pub strategy: Strategy,
    pub algorithm: BalanceAlgorithm,
    /// Per-interface overrides (interface name -> policy).
    pub interfaces: NameMap<InterfacePolicy>,
    /// Seconds between health checks (failover).
    pub health_check_interval_secs: u64,
    /// Whether the aggregated virtual interface is currently active.
    pub enabled: bool,
}

/// What an [`AggregatorConfig`] holds.
pub struct ConfigView {
    pub strategy: Strategy,
    pub algorithm: BalanceAlgorithm,
    pub interfaces: Map<Seq<char>, InterfacePolicy>,
    pub health_check_interval_secs: u64,
    pub enabled: bool,
}

impl View for AggregatorConfig {
    type V = ConfigView;

    open spec fn view(&self) -> ConfigView {
        ConfigView {
            strategy: self.strategy,
            algorithm: self.algorithm,
            interfaces: self.interfaces@,
            health_check_interval_secs: self.health_check_interval_secs,
            enabled: self.enabled,
        }
    }
}

impl ConfigView {
    /// Whether the settings are internally consistent.
    pub open spec fn valid(self) -> bool {
        &&& self.health_check_interval_secs >= 1
        &&& forall|name: Seq<char>| #[trigger]
            self.interfaces.contains_key(name) ==> self.interfaces[name].weight >= 1
    }
}

/// The settings to start with.
pub open spec fn default_config() -> ConfigView {
    ConfigView {
        strategy: Strategy::LoadBalance,
        algorithm: BalanceAlgorithm::Hash,
        interfaces: Map::empty(),
        health_check_interval_secs: 5,
        enabled: true,
    }
}

impl Default for AggregatorConfig {
    fn default() -> (r: Self)
        ensures
            r@ == default_config(),
            r@.valid(),
    {
        AggregatorConfig {
            strategy: Strategy::LoadBalance,
            algorithm: BalanceAlgorithm::Hash,
            interfaces: NameMap::new(),
            health_check_interval_secs: 5,
            enabled: true,
        }
    }
}

impl Clone for AggregatorConfig {
    fn clone(&self) -> (r: Self)
        ensures
            r@ == self@,
            r.interfaces.names() == self.interfaces.names(),
    {
        AggregatorConfig {
            strategy: self.strategy,
            algorithm: self.algorithm,
            interfaces: self.interfaces.clone(),
            health_check_interval_secs: self.health_check_interval_secs,
            enabled: self.enabled,
        }
    }
}

/// What is said of settings without a health check interval.
pub open spec fn interval_complaint() -> Seq<char> {
    "health_check_interval_secs must be >= 1"@
}

/// What is said of settings in which the interface `name` has no weight.
pub open spec fn weight_complaint(name: Seq<char>) -> Seq<char> {
    "weight of "@ + name + " must be >= 1 (use enabled=false to disable)"@
}

impl AggregatorConfig {
    /// The name at place `i` has no weight, and the names before it have one.
    pub open spec fn first_without_weight(self, i: int) -> bool {
        let names = self.interfaces.names();
        &&& 0 <= i < names.len()
        &&& self.interfaces@[names[i]].weight == 0
        &&& forall|j: int| 0 <= j < i ==> self.interfaces@[#[trigger] names[j]].weight >= 1
    }

    /// Whether `e` is what the settings are refused with: a missing health check interval
    /// is reported first, then the first name without weight.
    pub open spec fn refused_with(self, e: NetmuxError) -> bool {
        e matches NetmuxError::Config(text) && if self.health_check_interval_secs == 0 {
            text@ == interval_complaint()
        } else {
            exists|i: int| #[trigger]
                self.first_without_weight(i) && text@ == weight_complaint(
                    self.interfaces.names()[i],
                )
        }
    }

    /// Validate the configuration is internally consistent.
    pub fn validate(&self) -> (r: Result<()>)
        ensures
            r is Ok <==> self@.valid(),
            r matches Err(e) ==> self.refused_with(e),
    {
        if self.health_check_interval_secs == 0 {
            return Err(NetmuxError::config("health_check_interval_secs must be >= 1"));
        }
        let n: usize = self.interfaces.len();
        let mut i: usize = 0;
        while i < n
            invariant
                i <= n,
                n == self.interfaces.names().len(),
                self.health_check_interval_secs >= 1,
                forall|k: Seq<char>| #[trigger]
                    self.interfaces@.contains_key(k) <==> self.interfaces.names().contains(k),
                forall|j: int|
                    0 <= j < i ==> self.interfaces@[#[trigger] self.interfaces.names()[j]].weight
                        >= 1,
            decreases n - i,
        {
            if self.interfaces.value_at(i).weight == 0 {
                let mut text = "weight of ".to_string();
                text.append(self.interfaces.name_at(i));
                text.append(" must be >= 1 (use enabled=false to disable)");
                assert(self.first_without_weight(i as int));
                assert(self@.interfaces.contains_key(self.interfaces.names()[i as int]));
                return Err(NetmuxError::Config(text));
            }
            i = i + 1;
        }
        Ok(())
    }
}

/// A live interface view used by the scheduler during selection.
#[derive(Debug)]
pub struct CandidateIface {
    pub name: String,
    pub kind: InterfaceKind,
    pub policy: InterfacePolicy,
    /// The rank of the recent load (TX and RX bytes/s together), used by least-loaded:
    /// the lower, the less loaded; `None` for a load that is not below infinity.
    pub load: Option<i64>,
    /// True if healthy and ready to carry traffic.
    pub healthy: bool,
}

/// What a [`CandidateIface`] holds.
pub struct CandidateView {
    pub name: Seq<char>,
    pub kind: InterfaceKind,
    pub policy: InterfacePolicy,
    pub load: Option<i64>,
    pub healthy: bool,
}

impl View for CandidateIface {
    type V = CandidateView;

    open spec fn view(&self) -> CandidateView {
        CandidateView {
            name: self.name@,
            kind: self.kind,
            policy: self.policy,
            load: self.load,
            healthy: self.healthy,
        }
    }
}

impl Clone for CandidateIface {
    fn clone(&self) -> (r: Self)
        ensures
            r == *self,
    {
        CandidateIface {
            name: self.name.clone(),
            kind: self.kind,
            policy: self.policy,
            load: self.load,
            healthy: self.healthy,
        }
    }
}

/// Names an aggregation mode for the TUN egress.
#[derive(Debug, Clone, Copy, PartialEq, Eq, Structural)]
pub enum Connectivity {
    /// A real TUN device is aggregating real traffic.
    Tunnelling,
    /// Simulation mode (no root) for demonstration.
    Simulation,
}

/// What the candidates in `s` hold.
pub open spec fn candidate_views(s: Seq<CandidateIface>) -> Seq<CandidateView> {
    s.map_values(|c: CandidateIface| c@)
}

impl CandidateView {
    /// Whether the candidate may carry traffic.
    pub open spec fn usable(self) -> bool {
        self.policy.enabled && self.healthy
    }

    /// The candidate's share of the traffic, relative to the others'.
    pub open spec fn share(self) -> nat {
        if self.policy.weight == 0 {
            1
        } else {
            self.policy.weight as nat
        }
    }

    /// Whether the candidate is less loaded than `other`, or as loaded and preferred.
    /// One whose load is not below infinity is never lighter.
    pub open spec fn lighter_than(self, other: CandidateView) -> bool {
        match (self.load, other.load) {
            (Some(a), Some(b)) => a < b || (a == b && self.policy.priority
                > other.policy.priority),
            (Some(_), None) => true,
            (None, _) => false,
        }
    }
}

/// The candidates that may carry traffic, in the order in which they come.
pub open spec fn usable_of(s: Seq<CandidateView>) -> Seq<CandidateView>
    decreases s.len(),
{
    if s.len() == 0 {
        s
    } else if s.last().usable() {
        usable_of(s.drop_last()).push(s.last())
    } else {
        usable_of(s.drop_last())
    }
}

/// The shares of `s` together.
pub open spec fn total_share(s: Seq<CandidateView>) -> nat
    decreases s.len(),
{
    if s.len() == 0 {
        0
    } else {
        total_share(s.drop_last()) + s.last().share()
    }
}

/// The names of `s` in its order, each `n` times for every unit of its share.
pub open spec fn dealt(s: Seq<CandidateView>, n: nat) -> Seq<Seq<char>>
    decreases s.len(),
{
    if s.len() == 0 {
        Seq::empty()
    } else {
        dealt(s.drop_last(), n) + Seq::new(n * s.last().share(), |i: int| s.last().name)
    }
}

/// The name of a candidate.
pub open spec fn candidate_key() -> spec_fn(CandidateView) -> Seq<char> {
    |c: CandidateView| c.name
}

/// The places among which flows are dealt out: every name of `s`, in the order of
/// names, as often as the total share for every unit of its own.
pub open spec fn pool(s: Seq<CandidateView>) -> Seq<Seq<char>> {
    let ordered = by_key(s, candidate_key());
    dealt(ordered, total_share(ordered))
}

/// The place in `s` of the highest priority, the first of those that have it.
pub open spec fn highest(s: Seq<CandidateView>) -> int
    decreases s.len(),
{
    if s.len() <= 1 {
        0
    } else {
        let k = highest(s.drop_last());
        if s.last().policy.priority > s[k].policy.priority {
            s.len() - 1
        } else {
            k
        }
    }
}

/// The place in `s` of the least load, of the highest priority among equal loads, and
/// the first of those; `None` where no load is below infinity.
pub open spec fn lightest(s: Seq<CandidateView>) -> Option<int>
    decreases s.len(),
{
    if s.len() == 0 {
        None
    } else {
        match lightest(s.drop_last()) {
            Some(k) => if s.last().lighter_than(s[k]) {
                Some(s.len() - 1)
            } else {
                Some(k)
            },
            None => if s.last().load is Some {
                Some(s.len() - 1)
            } else {
                None
            },
        }
    }
}

/// The FNV-1a hash of `bytes`, 32 bits wide.
pub open spec fn fnv(bytes: Seq<u8>) -> u32
    decreases bytes.len(),
{
    if bytes.len() == 0 {
        0x811c9dc5
    } else {
        (fnv(bytes.drop_last()) ^ (bytes.last() as u32)).wrapping_mul(0x01000193)
    }
}

/// The interface that the flow `flow_key` leaves by when round-robin is at `turn`.
pub open spec fn choice(
    strategy: Strategy,
    algorithm: BalanceAlgorithm,
    candidates: Seq<CandidateView>,
    flow_key: Seq<char>,
    turn: u64,
) -> Option<Seq<char>> {
    let u = usable_of(candidates);
    if u.len() == 0 {
        None
    } else {
        match strategy {
            Strategy::Failover => Some(u[highest(u)].name),
            Strategy::LoadBalance => match algorithm {
                BalanceAlgorithm::RoundRobin => Some(pool(u)[turn as int % pool(u).len() as int]),
                BalanceAlgorithm::Hash => Some(
                    pool(u)[fnv(encode_utf8(flow_key)) as int % pool(u).len() as int],
                ),
                BalanceAlgorithm::LeastLoaded => match lightest(u) {
                    Some(k) => Some(u[k].name),
                    None => None,
                },
            },
        }
    }
}

/// Where round-robin is after a choice was made at `turn`.
pub open spec fn next_turn(
    strategy: Strategy,
    algorithm: BalanceAlgorithm,
    candidates: Seq<CandidateView>,
    turn: u64,
) -> u64 {
    if strategy is LoadBalance && algorithm is RoundRobin && usable_of(candidates).len() > 0 {
        turn.wrapping_add(1)
    } else {
        turn
    }
}

/// FNV-1a 32-bit hash used for stable flow pinning.
pub fn fnv1a(bytes: &[u8]) -> (r: u32)
    ensures
        r == fnv(bytes@),
{
    let mut hash: u32 = 0x811c9dc5;
    let mut i: usize = 0;
    assert(bytes@.take(0) =~= Seq::<u8>::empty());
    while i < bytes.len()
        invariant
            i <= bytes@.len(),
            hash == fnv(bytes@.take(i as int)),
        decreases bytes@.len() - i,
    {
        assert(bytes@.take(i + 1).drop_last() =~= bytes@.take(i as int));
        hash = (hash ^ (bytes[i] as u32)).wrapping_mul(0x01000193);
        i = i + 1;
    }
    assert(bytes@.take(i as int) =~= bytes@);
    hash
}

/// What the candidates referred to hold.
spec fn referred(s: Seq<&CandidateIface>) -> Seq<CandidateView> {
    s.map_values(|c: &CandidateIface| c@)
}

fn usable_candidates(candidates: &[CandidateIface]) -> (r: Vec<&CandidateIface>)
    ensures
        referred(r@) == usable_of(candidate_views(candidates@)),
{
    let mut out: Vec<&CandidateIface> = Vec::new();
    let ghost all = candidate_views(candidates@);
    let mut i: usize = 0;
    assert(referred(out@) =~= usable_of(all.take(0)));
    while i < candidates.len()
        invariant
            i <= candidates@.len(),
            all == candidate_views(candidates@),
            referred(out@) == usable_of(all.take(i as int)),
        decreases candidates@.len() - i,
    {
        let c = &candidates[i];
        assert(all.take(i + 1).drop_last() =~= all.take(i as int));
        assert(all.take(i + 1).last() == c@);
        let ghost before = referred(out@);
        if c.policy.enabled && c.healthy {
            out.push(c);
            assert(referred(out@) =~= before.push(c@));
        }
        i = i + 1;
    }
    assert(all.take(i as int) =~= all);
    out
}

fn ordered_candidates<'a>(list: &Vec<&'a CandidateIface>) -> (r: Vec<&'a CandidateIface>)
    ensures
        referred(r@) == by_key(referred(list@), candidate_key()),
        r@.len() == list@.len(),
{
    let mut out: Vec<&'a CandidateIface> = Vec::new();
    let ghost all = referred(list@);
    let mut i: usize = 0;
    assert(referred(out@) =~= by_key(all.take(0), candidate_key()));
    while i < list.len()
        invariant
            i <= list@.len(),
            out@.len() == i,
            all == referred(list@),
            referred(out@) == by_key(all.take(i as int), candidate_key()),
        decreases list@.len() - i,
    {
        let next = list[i];
        let ghost before = referred(out@);
        let ghost x = next@;
        let mut p: usize = out.len();
        while p > 0 && !not_after(out[p - 1].name.as_str(), next.name.as_str())
            invariant
                p <= out@.len(),
                before == referred(out@),
                x == next@,
                forall|j: int|
                    p <= j < before.len() ==> !text_le(
                        candidate_key()(#[trigger] before[j]),
                        candidate_key()(x),
                    ),
            decreases p,
        {
            p = p - 1;
        }
        proof {
            lemma_placed_at(before, x, candidate_key(), p as int);
            assert(all.take(i + 1).drop_last() =~= all.take(i as int));
            assert(all.take(i + 1).last() == x);
        }
        out.insert(p, next);
        assert(referred(out@) =~= before.insert(p as int, x));
        i = i + 1;
    }
    assert(all.take(i as int) =~= all);
    out
}

proof fn lemma_dealt_len(s: Seq<CandidateView>, n: nat)
    ensures
        dealt(s, n).len() == n * total_share(s),
    decreases s.len(),
{
    if s.len() == 0 {
        assert(n * 0 == 0) by (nonlinear_arith);
    } else {
        lemma_dealt_len(s.drop_last(), n);
        let (a, b) = (total_share(s.drop_last()), s.last().share());
        assert(n * a + n * b == n * (a + b)) by (nonlinear_arith);
    }
}

proof fn lemma_dealt_at(s: Seq<CandidateView>, n: nat, k: int, i: int)
    requires
        0 <= k < s.len(),
        n * total_share(s.take(k)) <= i < n * total_share(s.take(k + 1)),
    ensures
        0 <= i < dealt(s, n).len(),
        dealt(s, n)[i] == s[k].name,
    decreases s.len(),
{
    lemma_dealt_len(s, n);
    lemma_dealt_len(s.drop_last(), n);
    assert(0 <= n * total_share(s.take(k))) by (nonlinear_arith);
    if k == s.len() - 1 {
        assert(s.take(k) =~= s.drop_last());
        assert(s.take(k + 1) =~= s);
    } else {
        assert(s.drop_last().take(k) =~= s.take(k));
        assert(s.drop_last().take(k + 1) =~= s.take(k + 1));
        lemma_dealt_at(s.drop_last(), n, k, i);
    }
}

proof fn lemma_total_share_step(s: Seq<CandidateView>, k: int)
    requires
        0 <= k < s.len(),
    ensures
        total_share(s.take(k + 1)) == total_share(s.take(k)) + s[k].share(),
{
    assert(s.take(k + 1).drop_last() =~= s.take(k));
}

/// The share of `c` as a number to reckon with.
fn share_of(c: &CandidateIface) -> (r: u128)
    ensures
        r == c@.share(),
        1 <= r <= u32::MAX,
{
    if c.policy.weight == 0 {
        1
    } else {
        c.policy.weight as u128
    }
}

/// The name at place `x` of the pool of `list`, counting round.
fn pool_at(list: &Vec<&CandidateIface>, x: u64) -> (r: String)
    requires
        list@.len() > 0,
    ensures
        pool(referred(list@)).len() > 0,
        r@ == pool(referred(list@))[x as int % pool(referred(list@)).len() as int],
{
    let ordered = ordered_candidates(list);
    let ghost s = referred(ordered@);
    let mut total: u128 = 0;
    let mut i: usize = 0;
    assert(s.take(0) =~= Seq::<CandidateView>::empty());
    while i < ordered.len()
        invariant
            i <= ordered@.len(),
            s == referred(ordered@),
            total == total_share(s.take(i as int)),
            i <= total <= i * u32::MAX,
        decreases ordered@.len() - i,
    {
        proof {
            lemma_total_share_step(s, i as int);
        }
        total = total + share_of(ordered[i]);
        i = i + 1;
    }
    assert(s.take(i as int) =~= s);
    let y: u128 = ((x as u128) / total) % total;
    let ghost t = total as int;
    let ghost at = x as int % (t * t);
    proof {
        lemma_breakdown(x as int, t, t);
        lemma_dealt_len(s, total as nat);
        assert(t * t > 0) by (nonlinear_arith)
            requires
                t > 0,
        ;
    }
    let n: usize = ordered.len();
    let mut acc: u128 = 0;
    let mut k: usize = 0;
    assert(s.take(0) =~= Seq::<CandidateView>::empty());
    while acc + share_of(ordered[k]) <= y
        invariant
            k < n,
            n == ordered@.len(),
            s == referred(ordered@),
            total == total_share(s),
            acc == total_share(s.take(k as int)),
            acc <= y < total,
            total <= n * u32::MAX,
        decreases n - k,
    {
        proof {
            lemma_total_share_step(s, k as int);
            if k + 1 == s.len() {
                assert(s.take(k + 1) =~= s);
            }
        }
        acc = acc + share_of(ordered[k]);
        k = k + 1;
    }
    proof {
        lemma_total_share_step(s, k as int);
        let w = s[k as int].share();
        let a = acc as int;
        let q = y as int;
        let e = x as int % t;
        assert(t * a <= t * q + e) by (nonlinear_arith)
            requires
                t > 0,
                a <= q,
                e >= 0,
        ;
        assert(t * q + e < t * (a + w)) by (nonlinear_arith)
            requires
                t > 0,
                q < a + w,
                e < t,
        ;
        lemma_dealt_at(s, total as nat, k as int, at);
    }
    ordered[k].name.clone()
}

/// Decide a flow's egress interface.
///
/// * `flow_key` - the concrete flow identifier of the packet being routed, such as
///   "srcIP:port->dstIP:port". Hash mode derives a stable key from the 5-tuple;
///   round-robin / least-loaded use a rotating or load-sensitive selection.
/// * `rr_counter` - where round-robin is.
pub fn select_interface(
    cfg: &AggregatorConfig,
    candidates: &[CandidateIface],
    flow_key: &str,
    rr_counter: &mut u64,
) -> (r: Option<String>)
    ensures
        text_of(r) == choice(
            cfg.strategy,
            cfg.algorithm,
            candidate_views(candidates@),
            flow_key@,
            *old(rr_counter),
        ),
        *final(rr_counter) == next_turn(
            cfg.strategy,
            cfg.algorithm,
            candidate_views(candidates@),
            *old(rr_counter),
        ),
{
    let usable = usable_candidates(candidates);
    let ghost u = referred(usable@);
    if usable.len() == 0 {
        return None;
    }
    match cfg.strategy {
        Strategy::Failover => {
            let mut best: usize = 0;
            let mut i: usize = 1;
            while i < usable.len()
                invariant
                    1 <= i <= usable@.len(),
                    u == referred(usable@),
                    best < i,
                    best == highest(u.take(i as int)),
                decreases usable@.len() - i,
            {
                assert(u.take(i + 1).drop_last() =~= u.take(i as int));
                if usable[i].policy.priority > usable[best].policy.priority {
                    best = i;
                }
                i = i + 1;
            }
            assert(u.take(i as int) =~= u);
            Some(usable[best].name.clone())
        },
        Strategy::LoadBalance => match cfg.algorithm {
            BalanceAlgorithm::RoundRobin => {
                let turn: u64 = *rr_counter;
                *rr_counter = turn.wrapping_add(1);
                Some(pool_at(&usable, turn))
            },
            BalanceAlgorithm::Hash => {
                let h: u32 = fnv1a(flow_key.as_bytes());
                Some(pool_at(&usable, h as u64))
            },
            BalanceAlgorithm::LeastLoaded => {
                let mut best: Option<usize> = None;
                let mut i: usize = 0;
                while i < usable.len()
                    invariant
                        i <= usable@.len(),
                        u == referred(usable@),
                        match best {
                            Some(k) => k < i && lightest(u.take(i as int)) == Some(k as int),
                            None => lightest(u.take(i as int)) is None,
                        },
                    decreases usable@.len() - i,
                {
                    assert(u.take(i + 1).drop_last() =~= u.take(i as int));
                    best = match best {
                        Some(k) => if lighter(usable[i], usable[k]) {
                            Some(i)
                        } else {
                            Some(k)
                        },
                        None => if usable[i].load.is_some() {
                            Some(i)
                        } else {
                            None
                        },
                    };
                    i = i + 1;
                }
                assert(u.take(i as int) =~= u);
                match best {
                    Some(k) => Some(usable[k].name.clone()),
                    None => None,
                }
            },
        },
    }
}

fn lighter(a: &CandidateIface, b: &CandidateIface) -> (r: bool)
    ensures
        r == a@.lighter_than(b@),
{
    match (a.load, b.load) {
        (Some(x), Some(y)) => x < y || (x == y && a.policy.priority > b.policy.priority),
        (Some(_), None) => true,
        (None, _) => false,
    }
}

/// A change to the policy of one interface.
#[derive(Debug)]
pub enum IfaceAction {
    /// Let the interface serve traffic, or stop it.
    Enable(String, bool),
    /// Raise or lower the priority.
    Priority(String, i32),
    /// Raise or lower the weight.
    Weight(String, i32),
}

impl IfaceAction {
    /// The interface whose policy changes.
    pub open spec fn target(self) -> Seq<char> {
        match self {
            IfaceAction::Enable(name, _) => name@,
            IfaceAction::Priority(name, _) => name@,
            IfaceAction::Weight(name, _) => name@,
        }
    }

    /// The policy that the action makes of `p`.
    pub open spec fn applied_to(self, p: InterfacePolicy) -> InterfacePolicy {
        match self {
            IfaceAction::Enable(_, enable) => InterfacePolicy { enabled: enable, ..p },
            IfaceAction::Priority(_, delta) => InterfacePolicy {
                priority: stepped(p.priority, delta, 99),
                ..p
            },
            IfaceAction::Weight(_, delta) => InterfacePolicy {
                weight: stepped(p.weight, delta, 100),
                ..p
            },
        }
    }
}

/// A number as a signed one of 32 bits: the upper half stands for negative numbers.
pub open spec fn as_signed(x: u32) -> int {
    if x < 0x8000_0000 {
        x as int
    } else {
        x - 0x1_0000_0000
    }
}

/// `x`, taken as signed, moved by `delta` and kept between 1 and `most`.
pub open spec fn stepped(x: u32, delta: i32, most: u32) -> u32 {
    let sum = as_signed(x) + delta;
    if sum < 1 {
        1
    } else if sum > most {
        most
    } else {
        sum as u32
    }
}

fn step(x: u32, delta: i32, most: u32) -> (r: u32)
    ensures
        r == stepped(x, delta, most),
{
    let signed: i64 = if x < 0x8000_0000 {
        x as i64
    } else {
        x as i64 - 0x1_0000_0000
    };
    let sum: i64 = signed + delta as i64;
    if sum < 1 {
        1
    } else if sum > most as i64 {
        most
    } else {
        sum as u32
    }
}

impl ConfigView {
    /// The policy of the interface `name`, which is of the given kind: its own, where the
    /// settings give it one, and else the one of its kind.
    pub open spec fn policy_of(self, name: Seq<char>, kind: InterfaceKind) -> InterfacePolicy {
        if self.interfaces.contains_key(name) {
            self.interfaces[name]
        } else {
            base_policy(kind)
        }
    }

    /// The entry of the interface `name`, and the default policy where it has none.
    pub open spec fn entry_or_default(self, name: Seq<char>) -> InterfacePolicy {
        if self.interfaces.contains_key(name) {
            self.interfaces[name]
        } else {
            default_policy()
        }
    }
}

impl AggregatorConfig {
    /// The policy of the interface `name`, which is of the given kind: its own, where the
    /// settings give it one, and else the one of its kind.
    pub fn policy_of(&self, name: &str, kind: InterfaceKind) -> (r: InterfacePolicy)
        ensures
            r == self@.policy_of(name@, kind),
    {
        match self.interfaces.get(name) {
            Some(p) => *p,
            None => InterfacePolicy::for_kind(kind),
        }
    }

    fn entry_or_default(&self, name: &str) -> (r: InterfacePolicy)
        ensures
            r == self@.entry_or_default(name@),
    {
        match self.interfaces.get(name) {
            Some(p) => *p,
            None => InterfacePolicy::default(),
        }
    }

    /// Changes the policy of one interface; one without an entry gets one that starts
    /// from the default policy.
    pub fn apply(&mut self, action: IfaceAction)
        ensures
            final(self)@ == (ConfigView {
                interfaces: old(self)@.interfaces.insert(
                    action.target(),
                    action.applied_to(old(self)@.entry_or_default(action.target())),
                ),
                ..old(self)@
            }),
            old(self)@.valid() ==> final(self)@.valid(),
    {
        match action {
            IfaceAction::Enable(name, enable) => {
                let mut p = self.entry_or_default(name.as_str());
                p.enabled = enable;
                self.interfaces.insert(name, p);
            },
            IfaceAction::Priority(name, delta) => {
                let mut p = self.entry_or_default(name.as_str());
                p.priority = step(p.priority, delta, 99);
                self.interfaces.insert(name, p);
            },
            IfaceAction::Weight(name, delta) => {
                let mut p = self.entry_or_default(name.as_str());
                p.weight = step(p.weight, delta, 100);
                self.interfaces.insert(name, p);
            },
        }
    }
}

/// Whatever is chosen is the name of a candidate that is enabled and healthy.
pub proof fn law_choice_is_usable(
    strategy: Strategy,
    algorithm: BalanceAlgorithm,
    candidates: Seq<CandidateView>,
    flow_key: Seq<char>,
    turn: u64,
)
    ensures
        choice(strategy, algorithm, candidates, flow_key, turn) matches Some(name) ==> exists|
            i: int,
        |
            0 <= i < candidates.len() && (#[trigger] candidates[i]).usable() && candidates[i].name
                == name,
{
    let u = usable_of(candidates);
    if u.len() > 0 {
        let name = choice(strategy, algorithm, candidates, flow_key, turn);
        if name is Some {
            lemma_highest(u);
            lemma_lightest(u);
            lemma_pool_len(u);
            let k: int = if strategy is Failover {
                highest(u)
            } else if algorithm is LeastLoaded {
                lightest(u)->0
            } else {
                let x = if algorithm is RoundRobin {
                    turn as int
                } else {
                    fnv(encode_utf8(flow_key)) as int
                };
                let at = x % pool(u).len() as int;
                lemma_pool_names(u, at);
                choose|k: int| 0 <= k < u.len() && (#[trigger] u[k]).name == pool(u)[at]
            };
            assert(0 <= k < u.len() && u[k].name == name->0);
            lemma_usable_from(candidates, k);
        }
    }
}

proof fn lemma_usable_from(s: Seq<CandidateView>, k: int)
    requires
        0 <= k < usable_of(s).len(),
    ensures
        exists|i: int| 0 <= i < s.len() && (#[trigger] s[i]).usable() && s[i] == usable_of(s)[k],
    decreases s.len(),
{
    let head = s.drop_last();
    if s.last().usable() && k == usable_of(head).len() {
        assert(s[s.len() - 1].usable());
    } else {
        lemma_usable_from(head, k);
        let i = choose|i: int|
            0 <= i < head.len() && (#[trigger] head[i]).usable() && head[i] == usable_of(head)[k];
        assert(s[i] == head[i]);
    }
}

proof fn lemma_usable_kept(s: Seq<CandidateView>, i: int)
    requires
        0 <= i < s.len(),
        s[i].usable(),
    ensures
        exists|k: int| 0 <= k < usable_of(s).len() && #[trigger] usable_of(s)[k] == s[i],
    decreases s.len(),
{
    let head = s.drop_last();
    if i == s.len() - 1 {
        assert(usable_of(s)[usable_of(head).len() as int] == s[i]);
    } else {
        lemma_usable_kept(head, i);
        let k = choose|k: int|
            0 <= k < usable_of(head).len() && #[trigger] usable_of(head)[k] == head[i];
        assert(usable_of(s)[k] == s[i]);
    }
}

proof fn lemma_highest(s: Seq<CandidateView>)
    requires
        s.len() > 0,
    ensures
        0 <= highest(s) < s.len(),
        forall|j: int|
            0 <= j < s.len() ==> (#[trigger] s[j]).policy.priority <= s[highest(s)].policy.priority,
        forall|j: int|
            0 <= j < highest(s) ==> (#[trigger] s[j]).policy.priority
                < s[highest(s)].policy.priority,
    decreases s.len(),
{
    if s.len() > 1 {
        let head = s.drop_last();
        lemma_highest(head);
        assert forall|j: int| 0 <= j < s.len() implies (#[trigger] s[j]).policy.priority
            <= s[highest(s)].policy.priority by {
            if j < s.len() - 1 {
                assert(s[j] == head[j]);
            }
        }
        assert forall|j: int| 0 <= j < highest(s) implies (#[trigger] s[j]).policy.priority
            < s[highest(s)].policy.priority by {
            assert(s[j] == head[j]);
        }
    }
}

proof fn lemma_lightest(s: Seq<CandidateView>)
    ensures
        match lightest(s) {
            Some(k) => 0 <= k < s.len() && s[k].load is Some && (forall|j: int|
                0 <= j < s.len() ==> !(#[trigger] s[j]).lighter_than(s[k])) && (forall|j: int|
                0 <= j < k ==> s[k].lighter_than(#[trigger] s[j])),
            None => forall|j: int| 0 <= j < s.len() ==> (#[trigger] s[j]).load is None,
        },
    decreases s.len(),
{
    if s.len() > 0 {
        let head = s.drop_last();
        lemma_lightest(head);
        assert forall|j: int| 0 <= j < head.len() implies #[trigger] s[j] == head[j] by {}
    }
}

proof fn lemma_pool_len(s: Seq<CandidateView>)
    requires
        s.len() > 0,
    ensures
        total_share(by_key(s, candidate_key())) > 0,
        pool(s).len() == total_share(by_key(s, candidate_key())) * total_share(
            by_key(s, candidate_key()),
        ),
        pool(s).len() > 0,
{
    let ordered = by_key(s, candidate_key());
    law_by_key(s, candidate_key());
    let t = total_share(ordered);
    lemma_dealt_len(ordered, t);
    assert(t >= ordered.last().share());
    assert(t * t > 0) by (nonlinear_arith)
        requires
            t > 0,
    ;
}

proof fn lemma_dealt_names(s: Seq<CandidateView>, n: nat, at: int)
    requires
        0 <= at < dealt(s, n).len(),
    ensures
        exists|k: int| 0 <= k < s.len() && (#[trigger] s[k]).name == dealt(s, n)[at],
    decreases s.len(),
{
    let head = s.drop_last();
    if at < dealt(head, n).len() {
        lemma_dealt_names(head, n, at);
        let k = choose|k: int|
            0 <= k < head.len() && (#[trigger] head[k]).name == dealt(head, n)[at];
        assert(s[k] == head[k]);
    } else {
        assert(s[s.len() - 1].name == dealt(s, n)[at]);
    }
}

proof fn lemma_pool_names(s: Seq<CandidateView>, at: int)
    requires
        0 <= at < pool(s).len(),
    ensures
        exists|k: int| 0 <= k < s.len() && (#[trigger] s[k]).name == pool(s)[at],
{
    broadcast use vstd::seq_lib::group_to_multiset_ensures;

    let ordered = by_key(s, candidate_key());
    law_by_key(s, candidate_key());
    lemma_dealt_names(ordered, total_share(ordered), at);
    let k = choose|k: int| 0 <= k < ordered.len() && (#[trigger] ordered[k]).name == pool(s)[at];
    assert(ordered.contains(ordered[k]));
    assert(ordered.to_multiset().count(ordered[k]) > 0);
    assert(s.contains(ordered[k]));
}

/// A flow is given an interface exactly when one can carry it: an enabled and healthy
/// one, and, where the least loaded is asked for, one whose load is below infinity.
pub proof fn law_choice_exists(
    strategy: Strategy,
    algorithm: BalanceAlgorithm,
    candidates: Seq<CandidateView>,
    flow_key: Seq<char>,
    turn: u64,
)
    ensures
        choice(strategy, algorithm, candidates, flow_key, turn) is Some <==> exists|i: int|
            0 <= i < candidates.len() && (#[trigger] candidates[i]).usable() && (strategy is Failover
                || algorithm !is LeastLoaded || candidates[i].load is Some),
{
    let u = usable_of(candidates);
    let c = choice(strategy, algorithm, candidates, flow_key, turn);
    if c is Some {
        lemma_lightest(u);
        let k: int = if strategy is Failover || algorithm !is LeastLoaded {
            0
        } else {
            lightest(u)->0
        };
        lemma_usable_from(candidates, k);
    }
    if exists|i: int|
        0 <= i < candidates.len() && (#[trigger] candidates[i]).usable() && (strategy is Failover
            || algorithm !is LeastLoaded || candidates[i].load is Some) {
        let i = choose|i: int|
            0 <= i < candidates.len() && (#[trigger] candidates[i]).usable() && (strategy is Failover
                || algorithm !is LeastLoaded || candidates[i].load is Some);
        lemma_usable_kept(candidates, i);
        lemma_lightest(u);
    }
}

/// Failover takes an enabled and healthy candidate of the highest priority.
pub proof fn law_failover_takes_highest(
    algorithm: BalanceAlgorithm,
    candidates: Seq<CandidateView>,
    flow_key: Seq<char>,
    turn: u64,
)
    ensures
        choice(Strategy::Failover, algorithm, candidates, flow_key, turn) matches Some(name) ==> exists|
            i: int,
        |
            0 <= i < candidates.len() && (#[trigger] candidates[i]).usable() && candidates[i].name
                == name && forall|j: int|
                0 <= j < candidates.len() && (#[trigger] candidates[j]).usable()
                    ==> candidates[j].policy.priority <= candidates[i].policy.priority,
{
    let u = usable_of(candidates);
    if u.len() > 0 {
        lemma_highest(u);
        lemma_usable_from(candidates, highest(u));
        let i = choose|i: int|
            0 <= i < candidates.len() && (#[trigger] candidates[i]).usable() && candidates[i]
                == u[highest(u)];
        assert forall|j: int|
            0 <= j < candidates.len() && (#[trigger] candidates[j]).usable() implies candidates[j].policy.priority
            <= candidates[i].policy.priority by {
            lemma_usable_kept(candidates, j);
        }
    }
}

/// Failover switches on failure: when the candidate at `i` fails, the flow goes to one of
/// the highest priority among the other usable candidates, if there is any.
pub proof fn law_failover_switches(
    algorithm: BalanceAlgorithm,
    candidates: Seq<CandidateView>,
    i: int,
    flow_key: Seq<char>,
    turn: u64,
)
    requires
        0 <= i < candidates.len(),
    ensures
        match choice(
            Strategy::Failover,
            algorithm,
            candidates.update(i, CandidateView { healthy: false, ..candidates[i] }),
            flow_key,
            turn,
        ) {
            Some(name) => exists|k: int|
                0 <= k < candidates.len() && k != i && (#[trigger] candidates[k]).usable()
                    && candidates[k].name == name && forall|j: int|
                    0 <= j < candidates.len() && j != i && (#[trigger] candidates[j]).usable()
                        ==> candidates[j].policy.priority <= candidates[k].policy.priority,
            None => forall|j: int|
                0 <= j < candidates.len() && j != i ==> !(#[trigger] candidates[j]).usable(),
        },
{
    let after = candidates.update(i, CandidateView { healthy: false, ..candidates[i] });
    law_failover_takes_highest(algorithm, after, flow_key, turn);
    law_choice_exists(Strategy::Failover, algorithm, after, flow_key, turn);
    assert forall|j: int| 0 <= j < candidates.len() && j != i implies #[trigger] candidates[j]
        == after[j] by {}
    let c = choice(Strategy::Failover, algorithm, after, flow_key, turn);
    if c is Some {
        let k = choose|k: int|
            0 <= k < after.len() && (#[trigger] after[k]).usable() && after[k].name == c->0
                && forall|j: int|
                0 <= j < after.len() && (#[trigger] after[j]).usable()
                    ==> after[j].policy.priority <= after[k].policy.priority;
        assert(k != i);
        assert(candidates[k] == after[k]);
    }
}

/// Candidates that are disabled or not healthy make no difference.
pub proof fn law_unusable_make_no_difference(
    strategy: Strategy,
    algorithm: BalanceAlgorithm,
    candidates: Seq<CandidateView>,
    flow_key: Seq<char>,
    turn: u64,
)
    ensures
        choice(strategy, algorithm, candidates, flow_key, turn) == choice(
            strategy,
            algorithm,
            usable_of(candidates),
            flow_key,
            turn,
        ),
        next_turn(strategy, algorithm, candidates, turn) == next_turn(
            strategy,
            algorithm,
            usable_of(candidates),
            turn,
        ),
{
    lemma_usable_again(candidates);
}

proof fn lemma_usable_again(s: Seq<CandidateView>)
    ensures
        usable_of(usable_of(s)) == usable_of(s),
    decreases s.len(),
{
    if s.len() > 0 {
        lemma_usable_again(s.drop_last());
        if s.last().usable() {
            assert(usable_of(s).drop_last() =~= usable_of(s.drop_last()));
        }
    }
}

/// The least loaded is an enabled and healthy candidate that no other is lighter than.
pub proof fn law_least_loaded_takes_lightest(
    candidates: Seq<CandidateView>,
    flow_key: Seq<char>,
    turn: u64,
)
    ensures
        choice(
            Strategy::LoadBalance,
            BalanceAlgorithm::LeastLoaded,
            candidates,
            flow_key,
            turn,
        ) matches Some(name) ==> exists|i: int|
            0 <= i < candidates.len() && (#[trigger] candidates[i]).usable() && candidates[i].name
                == name && candidates[i].load is Some && forall|j: int|
                0 <= j < candidates.len() && (#[trigger] candidates[j]).usable()
                    ==> !candidates[j].lighter_than(candidates[i]),
{
    let u = usable_of(candidates);
    lemma_lightest(u);
    if lightest(u) is Some {
        let k = lightest(u)->0;
        lemma_usable_from(candidates, k);
        let i = choose|i: int|
            0 <= i < candidates.len() && (#[trigger] candidates[i]).usable() && candidates[i]
                == u[k];
        assert forall|j: int|
            0 <= j < candidates.len() && (#[trigger] candidates[j]).usable() implies !candidates[j].lighter_than(
        candidates[i]) by {
            lemma_usable_kept(candidates, j);
        }
    }
}

/// No two candidates of `s` have one name.
pub open spec fn distinct_names(s: Seq<CandidateView>) -> bool {
    forall|i: int, j: int|
        0 <= i < j < s.len() ==> (#[trigger] s[i]).name != (#[trigger] s[j]).name
}

/// Whether `x` and `y` are one interface, with the same weight and equally fit to serve
/// traffic. Its load, priority and kind may differ.
pub open spec fn same_link(x: CandidateView, y: CandidateView) -> bool {
    x.name == y.name && x.policy.weight == y.policy.weight && x.policy.enabled
        == y.policy.enabled && x.healthy == y.healthy
}

/// Whether the interface `x` is among `t`.
pub open spec fn has_link(t: Seq<CandidateView>, x: CandidateView) -> bool {
    exists|j: int| 0 <= j < t.len() && same_link(x, #[trigger] t[j])
}

/// Whether every interface of `s` is among `t`.
pub open spec fn links_among(s: Seq<CandidateView>, t: Seq<CandidateView>) -> bool {
    forall|i: int| 0 <= i < s.len() ==> has_link(t, #[trigger] s[i])
}

/// Hashing pins a flow: it keeps its interface as long as the interfaces keep their
/// weights and their fitness to serve traffic, in whatever order they are listed and
/// whatever becomes of their loads and priorities and of round-robin, which stays where
/// it is.
pub proof fn law_hash_pins_flow(
    before: Seq<CandidateView>,
    after: Seq<CandidateView>,
    flow_key: Seq<char>,
    turn: u64,
    later: u64,
)
    requires
        distinct_names(before),
        distinct_names(after),
        links_among(before, after),
        links_among(after, before),
    ensures
        choice(Strategy::LoadBalance, BalanceAlgorithm::Hash, before, flow_key, turn) == choice(
            Strategy::LoadBalance,
            BalanceAlgorithm::Hash,
            after,
            flow_key,
            later,
        ),
        next_turn(Strategy::LoadBalance, BalanceAlgorithm::Hash, before, turn) == turn,
{
    lemma_same_pool(before, after);
}

proof fn lemma_same_pool(before: Seq<CandidateView>, after: Seq<CandidateView>)
    requires
        distinct_names(before),
        distinct_names(after),
        links_among(before, after),
        links_among(after, before),
    ensures
        usable_of(before).len() == usable_of(after).len(),
        pool(usable_of(before)) == pool(usable_of(after)),
{
    let (u, v) = (usable_of(before), usable_of(after));
    lemma_usable_distinct(before);
    lemma_usable_distinct(after);
    lemma_usable_among(before, after);
    lemma_usable_among(after, before);
    let (p, q) = (by_key(u, candidate_key()), by_key(v, candidate_key()));
    law_by_key(u, candidate_key());
    law_by_key(v, candidate_key());
    lemma_ordered_distinct(u);
    lemma_ordered_distinct(v);
    lemma_ordered_among(u, v);
    lemma_ordered_among(v, u);
    lemma_ordered_unique(p, q);
    lemma_dealt_same(p, q, total_share(p));
}

proof fn lemma_usable_distinct(s: Seq<CandidateView>)
    requires
        distinct_names(s),
    ensures
        distinct_names(usable_of(s)),
    decreases s.len(),
{
    if s.len() > 0 {
        let head = s.drop_last();
        assert(distinct_names(head)) by {
            assert forall|i: int, j: int| 0 <= i < j < head.len() implies (#[trigger] head[i]).name
                != (#[trigger] head[j]).name by {
                assert(head[i] == s[i] && head[j] == s[j]);
            }
        }
        lemma_usable_distinct(head);
        let u = usable_of(head);
        if s.last().usable() {
            let r = usable_of(s);
            assert forall|i: int, j: int| 0 <= i < j < r.len() implies (#[trigger] r[i]).name != (
            #[trigger] r[j]).name by {
                if j == u.len() {
                    lemma_usable_from(head, i);
                    let k = choose|k: int|
                        0 <= k < head.len() && (#[trigger] head[k]).usable() && head[k] == u[i];
                    assert(s[k] == head[k] && s[s.len() - 1] == s.last());
                } else {
                    assert(r[i] == u[i] && r[j] == u[j]);
                }
            }
        }
    }
}

proof fn lemma_usable_among(s: Seq<CandidateView>, t: Seq<CandidateView>)
    requires
        links_among(s, t),
    ensures
        links_among(usable_of(s), usable_of(t)),
{
    let (u, v) = (usable_of(s), usable_of(t));
    assert forall|i: int| 0 <= i < u.len() implies has_link(v, #[trigger] u[i]) by {
        lemma_usable_from(s, i);
        let k = choose|k: int| 0 <= k < s.len() && (#[trigger] s[k]).usable() && s[k] == u[i];
        assert(has_link(t, s[k]));
        let m = choose|m: int| 0 <= m < t.len() && same_link(s[k], #[trigger] t[m]);
        lemma_usable_kept(t, m);
        let j = choose|j: int| 0 <= j < v.len() && #[trigger] v[j] == t[m];
        assert(same_link(u[i], v[j]));
    }
}

proof fn lemma_ordered_distinct(s: Seq<CandidateView>)
    requires
        distinct_names(s),
    ensures
        distinct_names(by_key(s, candidate_key())),
{
    let r = by_key(s, candidate_key());
    assert forall|i: int, j: int| 0 <= i < j < r.len() implies (#[trigger] r[i]).name != (
    #[trigger] r[j]).name by {
        let name = r[i].name;
        if name == r[j].name {
            lemma_name_count_two(r, i, j);
            lemma_ordered_name_count(s, name);
            lemma_name_count_one(s, name);
        }
    }
}

/// How many candidates of `s` are named `name`.
spec fn name_count(s: Seq<CandidateView>, name: Seq<char>) -> nat
    decreases s.len(),
{
    if s.len() == 0 {
        0
    } else {
        name_count(s.drop_last(), name) + if s.last().name == name {
            1nat
        } else {
            0
        }
    }
}

proof fn lemma_name_count_two(s: Seq<CandidateView>, i: int, j: int)
    requires
        0 <= i < j < s.len(),
        s[i].name == s[j].name,
    ensures
        name_count(s, s[i].name) >= 2,
    decreases s.len(),
{
    if j < s.len() - 1 {
        lemma_name_count_two(s.drop_last(), i, j);
    } else {
        lemma_name_count_some(s.drop_last(), i);
    }
}

proof fn lemma_name_count_some(s: Seq<CandidateView>, i: int)
    requires
        0 <= i < s.len(),
    ensures
        name_count(s, s[i].name) >= 1,
    decreases s.len(),
{
    if i < s.len() - 1 {
        lemma_name_count_some(s.drop_last(), i);
    }
}

proof fn lemma_name_count_none(s: Seq<CandidateView>, name: Seq<char>)
    requires
        forall|i: int| 0 <= i < s.len() ==> (#[trigger] s[i]).name != name,
    ensures
        name_count(s, name) == 0,
    decreases s.len(),
{
    if s.len() > 0 {
        let head = s.drop_last();
        assert forall|i: int| 0 <= i < head.len() implies (#[trigger] head[i]).name != name by {
            assert(head[i] == s[i]);
        }
        assert(s[s.len() - 1] == s.last());
        lemma_name_count_none(head, name);
    }
}

proof fn lemma_name_count_one(s: Seq<CandidateView>, name: Seq<char>)
    requires
        distinct_names(s),
    ensures
        name_count(s, name) <= 1,
    decreases s.len(),
{
    if s.len() > 0 {
        let head = s.drop_last();
        assert forall|i: int, j: int| 0 <= i < j < head.len() implies (#[trigger] head[i]).name != (
        #[trigger] head[j]).name by {
            assert(head[i] == s[i] && head[j] == s[j]);
        }
        if s.last().name == name {
            assert forall|i: int| 0 <= i < head.len() implies (#[trigger] head[i]).name != name by {
                assert(head[i] == s[i] && s[s.len() - 1] == s.last());
            }
            lemma_name_count_none(head, name);
        } else {
            lemma_name_count_one(head, name);
        }
    }
}

proof fn lemma_placed_name_count(s: Seq<CandidateView>, x: CandidateView, name: Seq<char>)
    ensures
        name_count(placed(s, x, candidate_key()), name) == name_count(s, name) + if x.name == name {
            1nat
        } else {
            0
        },
    decreases s.len(),
{
    let r = placed(s, x, candidate_key());
    if s.len() == 0 || text_le(candidate_key()(s.last()), candidate_key()(x)) {
        assert(r.drop_last() =~= s);
    } else {
        lemma_placed_name_count(s.drop_last(), x, name);
        assert(r.drop_last() =~= placed(s.drop_last(), x, candidate_key()));
    }
}

proof fn lemma_ordered_name_count(s: Seq<CandidateView>, name: Seq<char>)
    ensures
        name_count(by_key(s, candidate_key()), name) == name_count(s, name),
    decreases s.len(),
{
    if s.len() > 0 {
        lemma_ordered_name_count(s.drop_last(), name);
        lemma_placed_name_count(by_key(s.drop_last(), candidate_key()), s.last(), name);
    }
}

proof fn lemma_ordered_among(s: Seq<CandidateView>, t: Seq<CandidateView>)
    requires
        links_among(s, t),
    ensures
        links_among(by_key(s, candidate_key()), by_key(t, candidate_key())),
{
    broadcast use vstd::seq_lib::group_to_multiset_ensures;

    let (p, q) = (by_key(s, candidate_key()), by_key(t, candidate_key()));
    law_by_key(s, candidate_key());
    law_by_key(t, candidate_key());
    assert forall|i: int| 0 <= i < p.len() implies has_link(q, #[trigger] p[i]) by {
        assert(p.contains(p[i]));
        assert(p.to_multiset().count(p[i]) > 0);
        assert(s.contains(p[i]));
        let k = s.index_of(p[i]);
        assert(has_link(t, s[k]));
        let m = choose|m: int| 0 <= m < t.len() && same_link(s[k], #[trigger] t[m]);
        assert(t.contains(t[m]));
        assert(t.to_multiset().count(t[m]) > 0);
        assert(q.contains(t[m]));
        let j = q.index_of(t[m]);
        assert(q[j] == t[m]);
        assert(same_link(p[i], q[j]));
    }
}

/// Lists of the same interfaces in the order of names agree place by place.
proof fn lemma_ordered_unique(p: Seq<CandidateView>, q: Seq<CandidateView>)
    requires
        in_order(p, candidate_key()),
        in_order(q, candidate_key()),
        distinct_names(p),
        distinct_names(q),
        links_among(p, q),
        links_among(q, p),
    ensures
        p.len() == q.len(),
        forall|i: int| 0 <= i < p.len() ==> same_link(#[trigger] p[i], q[i]),
    decreases p.len(),
{
    if p.len() == 0 || q.len() == 0 {
        if q.len() > 0 {
            assert(has_link(p, q[0]));
        }
        if p.len() > 0 {
            assert(has_link(q, p[0]));
        }
    } else {
        let (m, n) = (p.len() - 1, q.len() - 1);
        assert(has_link(q, p[m]) && has_link(p, q[n]));
        let j = choose|j: int| 0 <= j < q.len() && same_link(p[m], #[trigger] q[j]);
        let i = choose|i: int| 0 <= i < p.len() && same_link(q[n], #[trigger] p[i]);
        assert(text_le(candidate_key()(q[j]), candidate_key()(q[n])));
        assert(text_le(candidate_key()(p[i]), candidate_key()(p[m])));
        lemma_text_le_antisymmetric(p[m].name, q[n].name);
        assert(j == n) by {
            if j < n {
                assert(q[j].name != q[n].name);
            }
        }
        let (a, b) = (p.drop_last(), q.drop_last());
        lemma_front(p);
        lemma_front(q);
        lemma_front_among(p, q);
        lemma_front_among(q, p);
        lemma_ordered_unique(a, b);
        assert forall|k: int| 0 <= k < p.len() implies same_link(#[trigger] p[k], q[k]) by {
            if k < m {
                assert(same_link(a[k], b[k]));
            }
        }
    }
}

proof fn lemma_front(p: Seq<CandidateView>)
    requires
        p.len() > 0,
        in_order(p, candidate_key()),
        distinct_names(p),
    ensures
        in_order(p.drop_last(), candidate_key()),
        distinct_names(p.drop_last()),
{
    let a = p.drop_last();
    assert forall|i: int, j: int| 0 <= i <= j < a.len() implies text_le(
        candidate_key()(#[trigger] a[i]),
        candidate_key()(#[trigger] a[j]),
    ) by {
        assert(a[i] == p[i] && a[j] == p[j]);
    }
    assert forall|i: int, j: int| 0 <= i < j < a.len() implies (#[trigger] a[i]).name != (
    #[trigger] a[j]).name by {
        assert(a[i] == p[i] && a[j] == p[j]);
    }
}

proof fn lemma_front_among(p: Seq<CandidateView>, q: Seq<CandidateView>)
    requires
        p.len() > 0,
        q.len() > 0,
        distinct_names(p),
        links_among(p, q),
        p.last().name == q.last().name,
    ensures
        links_among(p.drop_last(), q.drop_last()),
{
    let (a, b) = (p.drop_last(), q.drop_last());
    assert forall|i: int| 0 <= i < a.len() implies has_link(b, #[trigger] a[i]) by {
        assert(a[i] == p[i] && has_link(q, p[i]));
        let j = choose|j: int| 0 <= j < q.len() && same_link(p[i], #[trigger] q[j]);
        assert(p[i].name != p[p.len() - 1].name);
        assert(j < b.len());
        assert(same_link(a[i], b[j]));
    }
}

proof fn lemma_dealt_same(p: Seq<CandidateView>, q: Seq<CandidateView>, n: nat)
    requires
        p.len() == q.len(),
        forall|i: int| 0 <= i < p.len() ==> same_link(#[trigger] p[i], q[i]),
    ensures
        dealt(p, n) == dealt(q, n),
        total_share(p) == total_share(q),
    decreases p.len(),
{
    if p.len() > 0 {
        let (a, b) = (p.drop_last(), q.drop_last());
        assert forall|i: int| 0 <= i < a.len() implies same_link(#[trigger] a[i], b[i]) by {
            assert(a[i] == p[i] && b[i] == q[i]);
        }
        lemma_dealt_same(a, b, n);
        assert(same_link(p[p.len() - 1], q[q.len() - 1]));
        assert(Seq::new(n * p.last().share(), |i: int| p.last().name) =~= Seq::new(
            n * q.last().share(),
            |i: int| q.last().name,
        ));
    }
}

/// The shares of the candidates of `s` that are named `name` together.
pub open spec fn share_named(s: Seq<CandidateView>, name: Seq<char>) -> nat
    decreases s.len(),
{
    if s.len() == 0 {
        0
    } else {
        share_named(s.drop_last(), name) + if s.last().name == name {
            s.last().share()
        } else {
            0
        }
    }
}

proof fn lemma_placed_shares(s: Seq<CandidateView>, x: CandidateView, name: Seq<char>)
    ensures
        total_share(placed(s, x, candidate_key())) == total_share(s) + x.share(),
        share_named(placed(s, x, candidate_key()), name) == share_named(s, name) + if x.name
            == name {
            x.share()
        } else {
            0
        },
    decreases s.len(),
{
    let r = placed(s, x, candidate_key());
    if s.len() == 0 || text_le(candidate_key()(s.last()), candidate_key()(x)) {
        assert(r.drop_last() =~= s);
    } else {
        lemma_placed_shares(s.drop_last(), x, name);
        assert(r.drop_last() =~= placed(s.drop_last(), x, candidate_key()));
    }
}

proof fn lemma_ordered_shares(s: Seq<CandidateView>, name: Seq<char>)
    ensures
        total_share(by_key(s, candidate_key())) == total_share(s),
        share_named(by_key(s, candidate_key()), name) == share_named(s, name),
    decreases s.len(),
{
    if s.len() > 0 {
        lemma_ordered_shares(s.drop_last(), name);
        lemma_placed_shares(by_key(s.drop_last(), candidate_key()), s.last(), name);
    }
}

proof fn lemma_repeated_count(m: nat, a: Seq<char>, name: Seq<char>)
    ensures
        Seq::new(m, |i: int| a).to_multiset().count(name) == if a == name {
            m
        } else {
            0
        },
    decreases m,
{
    broadcast use vstd::multiset::group_multiset_axioms;
    broadcast use vstd::seq_lib::group_to_multiset_ensures;

    let s = Seq::new(m, |i: int| a);
    if m == 0 {
        assert(s =~= Seq::<Seq<char>>::empty());
        assert(s.to_multiset().len() == 0);
        assert(!s.contains(name));
    } else {
        let t = Seq::new((m - 1) as nat, |i: int| a);
        lemma_repeated_count((m - 1) as nat, a, name);
        assert(s =~= t.push(a));
    }
}

proof fn lemma_dealt_count(s: Seq<CandidateView>, n: nat, name: Seq<char>)
    ensures
        dealt(s, n).to_multiset().count(name) == n * share_named(s, name),
    decreases s.len(),
{
    broadcast use vstd::multiset::group_multiset_axioms;
    broadcast use vstd::seq_lib::group_to_multiset_ensures;

    if s.len() == 0 {
        assert(!dealt(s, n).contains(name));
        assert(n * 0 == 0) by (nonlinear_arith);
    } else {
        lemma_dealt_count(s.drop_last(), n, name);
        let c = s.last();
        let more = Seq::new(n * c.share(), |i: int| c.name);
        lemma_repeated_count(n * c.share(), c.name, name);
        lemma_multiset_commutative(dealt(s.drop_last(), n), more);
        let a = share_named(s.drop_last(), name);
        let b = c.share();
        assert(n * (a + b) == n * a + n * b) by (nonlinear_arith);
    }
}

/// The pool has the square of the total share for its length, and every name has as
/// many of its places as the total share for every unit of its own.
pub proof fn law_pool_shares(s: Seq<CandidateView>, name: Seq<char>)
    ensures
        pool(s).len() == total_share(s) * total_share(s),
        pool(s).to_multiset().count(name) == total_share(s) * share_named(s, name),
{
    let ordered = by_key(s, candidate_key());
    lemma_ordered_shares(s, name);
    lemma_dealt_len(ordered, total_share(ordered));
    lemma_dealt_count(ordered, total_share(ordered), name);
}

/// Round-robin is fair: over one cycle, wherever it begins and whatever the flows, each
/// interface is chosen in proportion to its share. (A cycle is as many turns as the
/// pool has places, within the range of the counter.)
pub proof fn law_round_robin_is_fair(
    candidates: Seq<CandidateView>,
    flow_keys: Seq<Seq<char>>,
    turn: u64,
    name: Seq<char>,
)
    requires
        usable_of(candidates).len() > 0,
        flow_keys.len() == pool(usable_of(candidates)).len(),
        turn + flow_keys.len() <= u64::MAX + 1,
    ensures
        flow_keys.map(
            |i: int, key: Seq<char>|
                choice(
                    Strategy::LoadBalance,
                    BalanceAlgorithm::RoundRobin,
                    candidates,
                    key,
                    (turn + i) as u64,
                ),
        ).to_multiset().count(Some(name)) == total_share(usable_of(candidates)) * share_named(
            usable_of(candidates),
            name,
        ),
{
    let u = usable_of(candidates);
    let p = pool(u);
    let n = p.len() as int;
    lemma_pool_len(u);
    law_pool_shares(u, name);
    let chosen = flow_keys.map(
        |i: int, key: Seq<char>|
            choice(
                Strategy::LoadBalance,
                BalanceAlgorithm::RoundRobin,
                candidates,
                key,
                (turn + i) as u64,
            ),
    );
    let t = turn as int % n;
    let some = p.map_values(|x: Seq<char>| Some(x));
    assert forall|i: int| 0 <= i < n implies #[trigger] chosen[i] == (some.skip(t) + some.take(
        t,
    ))[i] by {
        assert(chosen[i] == Some(p[(turn + i) % n]));
        lemma_turn_place(turn as int, i, n);
    }
    assert(chosen =~= some.skip(t) + some.take(t));
    lemma_seq_union_to_multiset_commutative(some.skip(t), some.take(t));
    assert(some.take(t) + some.skip(t) =~= some);
    lemma_wrapped_count(p, name);
}

proof fn lemma_turn_place(turn: int, i: int, n: int)
    requires
        0 <= turn,
        0 <= i < n,
    ensures
        (turn + i) % n == if turn % n + i < n {
            turn % n + i
        } else {
            turn % n + i - n
        },
{
    lemma_add_mod_noop(turn, i, n);
    lemma_small_mod(i as nat, n as nat);
    lemma_mod_bound(turn, n);
    let x = turn % n + i;
    if x < n {
        lemma_small_mod(x as nat, n as nat);
    } else {
        lemma_mod_sub_multiples_vanish(x, n);
        lemma_small_mod((x - n) as nat, n as nat);
    }
}

proof fn lemma_wrapped_count(p: Seq<Seq<char>>, name: Seq<char>)
    ensures
        p.map_values(|x: Seq<char>| Some(x)).to_multiset().count(Some(name))
            == p.to_multiset().count(name),
    decreases p.len(),
{
    broadcast use vstd::multiset::group_multiset_axioms;
    broadcast use vstd::seq_lib::group_to_multiset_ensures;

    let w = p.map_values(|x: Seq<char>| Some(x));
    if p.len() == 0 {
        assert(!p.contains(name));
        assert(!w.contains(Some(name)));
    } else {
        let head = p.drop_last();
        lemma_wrapped_count(head, name);
        assert(p =~= head.push(p.last()));
        assert(w =~= head.map_values(|x: Seq<char>| Some(x)).push(Some(p.last())));
    }
}

proof fn lemma_usable_place(s: Seq<CandidateView>, i: int)
    requires
        0 <= i < s.len(),
        s[i].usable(),
    ensures
        usable_of(s.take(i)).len() < usable_of(s).len(),
        usable_of(s)[usable_of(s.take(i)).len() as int] == s[i],
    decreases s.len(),
{
    let head = s.drop_last();
    if i == s.len() - 1 {
        assert(s.take(i) =~= head);
    } else {
        assert(head.take(i) =~= s.take(i));
        lemma_usable_place(head, i);
    }
}

proof fn lemma_usable_origin(s: Seq<CandidateView>, k: int)
    requires
        0 <= k < usable_of(s).len(),
    ensures
        exists|m: int|
            0 <= m < s.len() && (#[trigger] s[m]).usable() && usable_of(s.take(m)).len() == k && s[m]
                == usable_of(s)[k],
    decreases s.len(),
{
    let head = s.drop_last();
    if s.last().usable() && k == usable_of(head).len() {
        let m = s.len() - 1;
        assert(s.take(m) =~= head);
        assert(s[m].usable());
    } else {
        lemma_usable_origin(head, k);
        let m = choose|m: int|
            0 <= m < head.len() && (#[trigger] head[m]).usable() && usable_of(head.take(m)).len()
                == k && head[m] == usable_of(head)[k];
        assert(head.take(m) =~= s.take(m));
        assert(s[m] == head[m]);
    }
}

proof fn lemma_usable_order(s: Seq<CandidateView>, m: int, i: int)
    requires
        0 <= m < s.len(),
        0 <= i < s.len(),
        s[m].usable(),
        s[i].usable(),
    ensures
        m < i <==> usable_of(s.take(m)).len() < usable_of(s.take(i)).len(),
{
    if m < i {
        let t = s.take(i);
        assert(t.take(m) =~= s.take(m));
        lemma_usable_place(t, m);
    } else if i < m {
        let t = s.take(m);
        assert(t.take(i) =~= s.take(i));
        lemma_usable_place(t, i);
    }
}

/// Whatever is chosen is the name of a candidate that is both enabled and healthy, of
/// whatever kind it is.
pub proof fn law_chosen_is_enabled_and_healthy(
    strategy: Strategy,
    algorithm: BalanceAlgorithm,
    candidates: Seq<CandidateView>,
    flow_key: Seq<char>,
    turn: u64,
)
    ensures
        choice(strategy, algorithm, candidates, flow_key, turn) matches Some(name) ==> exists|
            i: int,
        |
            0 <= i < candidates.len() && (#[trigger] candidates[i]).policy.enabled
                && candidates[i].healthy && candidates[i].name == name,
{
    law_choice_is_usable(strategy, algorithm, candidates, flow_key, turn);
    let c = choice(strategy, algorithm, candidates, flow_key, turn);
    if c is Some {
        let i = choose|i: int|
            0 <= i < candidates.len() && (#[trigger] candidates[i]).usable() && candidates[i].name
                == c->0;
        assert(candidates[i].policy.enabled && candidates[i].healthy);
    }
}

/// Every flow is given an interface as long as one candidate is enabled and healthy, with
/// a load below infinity where the least loaded is asked for; and else none is.
pub proof fn law_every_flow_is_given_an_interface(
    strategy: Strategy,
    algorithm: BalanceAlgorithm,
    candidates: Seq<CandidateView>,
    flow_key: Seq<char>,
    turn: u64,
)
    ensures
        choice(strategy, algorithm, candidates, flow_key, turn) is Some <==> exists|i: int|
            0 <= i < candidates.len() && (#[trigger] candidates[i]).policy.enabled
                && candidates[i].healthy && (strategy == Strategy::LoadBalance && algorithm
                == BalanceAlgorithm::LeastLoaded ==> candidates[i].load is Some),
{
    law_choice_exists(strategy, algorithm, candidates, flow_key, turn);
    let c = choice(strategy, algorithm, candidates, flow_key, turn);
    if c is Some {
        let i = choose|i: int|
            0 <= i < candidates.len() && (#[trigger] candidates[i]).usable() && (strategy is Failover
                || algorithm !is LeastLoaded || candidates[i].load is Some);
        assert(candidates[i].policy.enabled && candidates[i].healthy);
    }
    if exists|i: int|
        0 <= i < candidates.len() && (#[trigger] candidates[i]).policy.enabled
            && candidates[i].healthy && (strategy == Strategy::LoadBalance && algorithm
            == BalanceAlgorithm::LeastLoaded ==> candidates[i].load is Some) {
        let i = choose|i: int|
            0 <= i < candidates.len() && (#[trigger] candidates[i]).policy.enabled
                && candidates[i].healthy && (strategy == Strategy::LoadBalance && algorithm
                == BalanceAlgorithm::LeastLoaded ==> candidates[i].load is Some);
        assert(candidates[i].usable());
    }
}

/// Failover takes candidate `i`, if it is enabled and healthy, no such candidate has a
/// higher priority, and none before it the same; whatever the flow, the algorithm, the
/// weights, the kinds and the loads.
pub proof fn law_failover_choice(
    algorithm: BalanceAlgorithm,
    candidates: Seq<CandidateView>,
    flow_key: Seq<char>,
    turn: u64,
    i: int,
)
    requires
        0 <= i < candidates.len(),
        candidates[i].policy.enabled && candidates[i].healthy,
        forall|j: int|
            0 <= j < candidates.len() && (#[trigger] candidates[j]).policy.enabled
                && candidates[j].healthy ==> candidates[j].policy.priority
                <= candidates[i].policy.priority && (j < i ==> candidates[j].policy.priority
                < candidates[i].policy.priority),
    ensures
        choice(Strategy::Failover, algorithm, candidates, flow_key, turn) == Some(
            candidates[i].name,
        ),
{
    let u = usable_of(candidates);
    assert(candidates[i].usable());
    lemma_usable_place(candidates, i);
    let at = usable_of(candidates.take(i)).len() as int;
    lemma_highest(u);
    let h = highest(u);
    lemma_usable_origin(candidates, h);
    let m = choose|m: int|
        0 <= m < candidates.len() && (#[trigger] candidates[m]).usable() && usable_of(
            candidates.take(m),
        ).len() == h && candidates[m] == u[h];
    lemma_usable_order(candidates, m, i);
    assert(u[at].policy.priority <= u[h].policy.priority);
}

/// The least loaded is candidate `i`, if it is enabled and healthy with a load below
/// infinity, and every other such candidate is more loaded, or as loaded and of no higher
/// priority, and of a lower one if it comes before; whatever the flow, the weights and the
/// kinds.
pub proof fn law_least_loaded_choice(
    candidates: Seq<CandidateView>,
    flow_key: Seq<char>,
    turn: u64,
    i: int,
    load: i64,
)
    requires
        0 <= i < candidates.len(),
        candidates[i].policy.enabled && candidates[i].healthy,
        candidates[i].load == Some(load),
        forall|j: int|
            0 <= j < candidates.len() && j != i && (#[trigger] candidates[j]).policy.enabled
                && candidates[j].healthy ==> (candidates[j].load matches Some(other) ==> load < other
                || (load == other && (candidates[i].policy.priority > candidates[j].policy.priority
                || (candidates[i].policy.priority == candidates[j].policy.priority && i < j)))),
    ensures
        choice(
            Strategy::LoadBalance,
            BalanceAlgorithm::LeastLoaded,
            candidates,
            flow_key,
            turn,
        ) == Some(candidates[i].name),
{
    let u = usable_of(candidates);
    assert(candidates[i].usable());
    lemma_usable_place(candidates, i);
    let at = usable_of(candidates.take(i)).len() as int;
    lemma_lightest(u);
    assert(u[at].load is Some);
    let h = lightest(u)->0;
    lemma_usable_origin(candidates, h);
    let m = choose|m: int|
        0 <= m < candidates.len() && (#[trigger] candidates[m]).usable() && usable_of(
            candidates.take(m),
        ).len() == h && candidates[m] == u[h];
    lemma_usable_order(candidates, m, i);
    lemma_usable_order(candidates, i, m);
    if m != i {
        assert(!u[at].lighter_than(u[h]));
        if at < h {
            assert(u[h].lighter_than(u[at]));
        }
    }
}

/// Hashing takes the interface that round-robin takes at the turn of the flow's hash.
pub proof fn law_hash_is_round_robin_at_hash(
    candidates: Seq<CandidateView>,
    flow_key: Seq<char>,
    turn: u64,
    other_key: Seq<char>,
)
    ensures
        choice(Strategy::LoadBalance, BalanceAlgorithm::Hash, candidates, flow_key, turn) == choice(
            Strategy::LoadBalance,
            BalanceAlgorithm::RoundRobin,
            candidates,
            other_key,
            fnv(encode_utf8(flow_key)) as u64,
        ),
{
}

/// The hash of no bytes is the offset basis, and each byte is mixed in by exclusive or and
/// a multiplication with the prime, modulo two to the power of 32.
pub proof fn law_hash_of_bytes(bytes: Seq<u8>, b: u8)
    ensures
        fnv(Seq::<u8>::empty()) == 2166136261,
        fnv(bytes.push(b)) == (fnv(bytes) ^ (b as u32)) as int * 16777619 % 0x1_0000_0000,
{
    assert(bytes.push(b).drop_last() =~= bytes);
}

/// A candidate's share is its weight, and one where it has none; shares add up.
pub proof fn law_shares_are_weights(s: Seq<CandidateView>, c: CandidateView)
    ensures
        c.policy.weight >= 1 ==> c.share() == c.policy.weight,
        c.policy.weight == 0 ==> c.share() == 1,
        total_share(Seq::<CandidateView>::empty()) == 0,
        total_share(s.push(c)) == total_share(s) + c.share(),
{
    assert(s.push(c).drop_last() =~= s);
}

proof fn lemma_dealt_in_order(s: Seq<CandidateView>, n: nat, i: int, j: int)
    requires
        in_order(s, candidate_key()),
        0 <= i <= j < dealt(s, n).len(),
    ensures
        text_le(dealt(s, n)[i], dealt(s, n)[j]),
    decreases s.len(),
{
    let head = s.drop_last();
    let d = dealt(head, n);
    assert(in_order(head, candidate_key())) by {
        assert forall|a: int, b: int| 0 <= a <= b < head.len() implies text_le(
            candidate_key()(#[trigger] head[a]),
            candidate_key()(#[trigger] head[b]),
        ) by {
            assert(head[a] == s[a] && head[b] == s[b]);
        }
    }
    if j < d.len() {
        lemma_dealt_in_order(head, n, i, j);
    } else if i < d.len() {
        lemma_dealt_names(head, n, i);
        let k = choose|k: int| 0 <= k < head.len() && (#[trigger] head[k]).name == d[i];
        assert(s[k] == head[k]);
        assert(text_le(candidate_key()(s[k]), candidate_key()(s[s.len() - 1])));
    } else {
        crate::text::lemma_text_le_reflexive(s.last().name);
    }
}

/// Round-robin goes round in fixed order: a cycle has as many turns as the square of the
/// total share, within it the interfaces come in the order of their names, and after it
/// the next is the same.
pub proof fn law_round_robin_goes_round(
    candidates: Seq<CandidateView>,
    flow_key: Seq<char>,
    other_key: Seq<char>,
    x: u64,
    y: u64,
)
    requires
        usable_of(candidates).len() > 0,
    ensures
        ({
            let n = total_share(usable_of(candidates)) * total_share(usable_of(candidates));
            let at = |t: u64, key: Seq<char>|
                choice(Strategy::LoadBalance, BalanceAlgorithm::RoundRobin, candidates, key, t);
            &&& n > 0
            &&& x <= y < n ==> text_le(at(x, flow_key)->0, at(y, other_key)->0)
            &&& y == x as int % (n as int) ==> at(x, flow_key) == at(y, other_key)
        }),
{
    let u = usable_of(candidates);
    let ordered = by_key(u, candidate_key());
    lemma_pool_len(u);
    law_pool_shares(u, Seq::empty());
    law_by_key(u, candidate_key());
    let n = pool(u).len() as int;
    if x <= y && y < n {
        lemma_small_mod(x as nat, n as nat);
        lemma_small_mod(y as nat, n as nat);
        lemma_dealt_in_order(ordered, total_share(ordered), x as int, y as int);
    }
    if y == x as int % n {
        lemma_mod_bound(x as int, n);
        lemma_small_mod(y as nat, n as nat);
    }
}

proof fn lemma_share_of_name(s: Seq<CandidateView>, i: int)
    requires
        distinct_names(s),
        0 <= i < s.len(),
    ensures
        share_named(s, s[i].name) == s[i].share(),
    decreases s.len(),
{
    let head = s.drop_last();
    assert(distinct_names(head)) by {
        assert forall|a: int, b: int| 0 <= a < b < head.len() implies (#[trigger] head[a]).name != (
        #[trigger] head[b]).name by {
            assert(head[a] == s[a] && head[b] == s[b]);
        }
    }
    if i < s.len() - 1 {
        lemma_share_of_name(head, i);
        assert(s[i].name != s[s.len() - 1].name);
    } else {
        lemma_share_of_none(head, s[i].name);
    }
}

proof fn lemma_share_of_none(s: Seq<CandidateView>, name: Seq<char>)
    requires
        forall|k: int| 0 <= k < s.len() ==> (#[trigger] s[k]).name != name,
    ensures
        share_named(s, name) == 0,
    decreases s.len(),
{
    if s.len() > 0 {
        let head = s.drop_last();
        assert forall|k: int| 0 <= k < head.len() implies (#[trigger] head[k]).name != name by {
            assert(head[k] == s[k]);
        }
        assert(s[s.len() - 1].name != name);
        lemma_share_of_none(head, name);
    }
}

/// Over a cycle of round-robin, wherever it begins and whatever the flows, two interfaces
/// are taken in the proportion of their weights, a weight of zero counting as one, and
/// each is taken. (Within the range of the counter.)
pub proof fn law_round_robin_follows_weights(
    candidates: Seq<CandidateView>,
    flow_keys: Seq<Seq<char>>,
    turn: u64,
    i: int,
    j: int,
    wi: int,
    wj: int,
)
    requires
        distinct_names(candidates),
        0 <= i < candidates.len(),
        0 <= j < candidates.len(),
        candidates[i].policy.enabled && candidates[i].healthy,
        candidates[j].policy.enabled && candidates[j].healthy,
        wi == if candidates[i].policy.weight == 0 {
            1
        } else {
            candidates[i].policy.weight as int
        },
        wj == if candidates[j].policy.weight == 0 {
            1
        } else {
            candidates[j].policy.weight as int
        },
        flow_keys.len() == total_share(usable_of(candidates)) * total_share(usable_of(candidates)),
        turn + flow_keys.len() <= u64::MAX + 1,
    ensures
        ({
            let taken = flow_keys.map(
                |k: int, key: Seq<char>|
                    choice(
                        Strategy::LoadBalance,
                        BalanceAlgorithm::RoundRobin,
                        candidates,
                        key,
                        (turn + k) as u64,
                    ),
            ).to_multiset();
            &&& taken.count(Some(candidates[i].name)) * wj == taken.count(Some(candidates[j].name))
                * wi
            &&& taken.count(Some(candidates[i].name)) > 0
        }),
{
    let u = usable_of(candidates);
    assert(candidates[i].usable() && candidates[j].usable());
    lemma_usable_place(candidates, i);
    lemma_usable_place(candidates, j);
    lemma_usable_distinct(candidates);
    lemma_share_of_name(u, usable_of(candidates.take(i)).len() as int);
    lemma_share_of_name(u, usable_of(candidates.take(j)).len() as int);
    law_pool_shares(u, candidates[i].name);
    lemma_pool_len(u);
    lemma_ordered_shares(u, candidates[i].name);
    law_round_robin_is_fair(candidates, flow_keys, turn, candidates[i].name);
    law_round_robin_is_fair(candidates, flow_keys, turn, candidates[j].name);
    let t = total_share(u) as int;
    assert((t * wi) * wj == (t * wj) * wi) by (nonlinear_arith);
    assert(t * wi > 0) by (nonlinear_arith)
        requires
            t > 0,
            wi > 0,
    ;
}

/// Round-robin moves on by one with each flow that it gives an interface to, and starts
/// over behind the largest turn; nothing else moves it.
pub proof fn law_turns(
    strategy: Strategy,
    algorithm: BalanceAlgorithm,
    candidates: Seq<CandidateView>,
    turn: u64,
)
    ensures
        next_turn(strategy, algorithm, candidates, turn) == if strategy == Strategy::LoadBalance
            && algorithm == BalanceAlgorithm::RoundRobin && (exists|i: int|
            0 <= i < candidates.len() && (#[trigger] candidates[i]).policy.enabled
                && candidates[i].healthy) {
            (turn + 1) % 0x1_0000_0000_0000_0000
        } else {
            turn as int
        },
{
    law_choice_exists(Strategy::Failover, algorithm, candidates, Seq::empty(), turn);
    let u = usable_of(candidates);
    if u.len() > 0 {
        lemma_usable_from(candidates, 0);
        let i = choose|i: int|
            0 <= i < candidates.len() && (#[trigger] candidates[i]).usable() && candidates[i]
                == u[0];
        assert(candidates[i].policy.enabled && candidates[i].healthy);
    } else if exists|i: int|
        0 <= i < candidates.len() && (#[trigger] candidates[i]).policy.enabled
            && candidates[i].healthy {
        let i = choose|i: int|
            0 <= i < candidates.len() && (#[trigger] candidates[i]).policy.enabled
                && candidates[i].healthy;
        assert(candidates[i].usable());
        lemma_usable_kept(candidates, i);
    }
}

/// Settings are valid exactly when there is a health check interval and no interface is
/// without weight, enabled or not.
pub proof fn law_valid_settings(c: ConfigView, name: Seq<char>)
    ensures
        c.health_check_interval_secs == 0 ==> !c.valid(),
        c.interfaces.contains_key(name) && c.interfaces[name].weight == 0 ==> !c.valid(),
        !c.valid() ==> c.health_check_interval_secs == 0 || exists|n: Seq<char>| #[trigger]
            c.interfaces.contains_key(n) && c.interfaces[n].weight == 0,
{
}

/// An interface without settings of its own goes by its kind: ethernet before cellular
/// before Wi-Fi before the rest, with weight one, enabled. Settings of its own override
/// all of that.
pub proof fn law_policy_of_interface(c: ConfigView, name: Seq<char>, kind: InterfaceKind)
    ensures
        c.interfaces.contains_key(name) ==> c.policy_of(name, kind) == c.interfaces[name],
        !c.interfaces.contains_key(name) ==> {
            let p = c.policy_of(name, kind);
            &&& p.weight == 1 && p.enabled
            &&& kind == InterfaceKind::Ethernet ==> p.priority == 30
            &&& kind == InterfaceKind::Cellular ==> p.priority == 20
            &&& kind == InterfaceKind::Wifi ==> p.priority == 10
            &&& kind != InterfaceKind::Ethernet && kind != InterfaceKind::Cellular && kind
                != InterfaceKind::Wifi ==> p.priority == 5
        },
{
}

/// Enabling changes nothing but whether the interface may serve traffic; a priority moves
/// by what is asked for, between 1 and 99, and a weight between 1 and 100, and nothing
/// else of the policy changes.
pub proof fn law_actions(p: InterfacePolicy, name: String, enable: bool, delta: i32)
    ensures
        IfaceAction::Enable(name, enable).target() == name@,
        IfaceAction::Priority(name, delta).target() == name@,
        IfaceAction::Weight(name, delta).target() == name@,
        ({
            let q = IfaceAction::Enable(name, enable).applied_to(p);
            q.enabled == enable && q.priority == p.priority && q.weight == p.weight
        }),
        ({
            let q = IfaceAction::Priority(name, delta).applied_to(p);
            &&& q.enabled == p.enabled && q.weight == p.weight
            &&& 1 <= q.priority <= 99
            &&& p.priority <= i32::MAX && 1 <= p.priority + delta <= 99 ==> q.priority
                == p.priority + delta
            &&& p.priority <= i32::MAX && p.priority + delta > 99 ==> q.priority == 99
            &&& p.priority <= i32::MAX && p.priority + delta < 1 ==> q.priority == 1
        }),
        ({
            let q = IfaceAction::Weight(name, delta).applied_to(p);
            &&& q.enabled == p.enabled && q.priority == p.priority
            &&& 1 <= q.weight <= 100
            &&& p.weight <= i32::MAX && 1 <= p.weight + delta <= 100 ==> q.weight == p.weight + delta
            &&& p.weight <= i32::MAX && p.weight + delta > 100 ==> q.weight == 100
            &&& p.weight <= i32::MAX && p.weight + delta < 1 ==> q.weight == 1
        }),
{
}

/// An action on an interface without settings starts from priority 10 and weight 1,
/// enabled.
pub proof fn law_actions_start_from_default(c: ConfigView, name: Seq<char>)
    ensures
        c.interfaces.contains_key(name) ==> c.entry_or_default(name) == c.interfaces[name],
        !c.interfaces.contains_key(name) ==> c.entry_or_default(name) == (InterfacePolicy {
            priority: 10,
            weight: 1,
            enabled: true,
        }),
{
}

/// Priorities and weights past the signed range are taken as negative numbers before they
/// are moved.
pub proof fn law_actions_on_large_values(p: InterfacePolicy, name: String, delta: i32)
    ensures
        p.priority > i32::MAX ==> ({
            let q = IfaceAction::Priority(name, delta).applied_to(p);
            let sum = p.priority - 0x1_0000_0000 + delta;
            &&& q.enabled == p.enabled && q.weight == p.weight
            &&& 1 <= sum <= 99 ==> q.priority == sum
            &&& sum > 99 ==> q.priority == 99
            &&& sum < 1 ==> q.priority == 1
        }),
        p.weight > i32::MAX ==> ({
            let q = IfaceAction::Weight(name, delta).applied_to(p);
            let sum = p.weight - 0x1_0000_0000 + delta;
            &&& q.enabled == p.enabled && q.priority == p.priority
            &&& 1 <= sum <= 100 ==> q.weight == sum
            &&& sum > 100 ==> q.weight == 100
            &&& sum < 1 ==> q.weight == 1
        }),
{
}

/// Settings are refused as a configuration error that names what is wrong: the health check
/// interval where there is none, whatever the weights are, and else an interface of the
/// settings that has no weight, before which none lacks it.
pub proof fn law_refusal(c: AggregatorConfig, e: NetmuxError)
    requires
        c.refused_with(e),
    ensures
        e is Config,
        e matches NetmuxError::Config(text) ==> {
            &&& c.health_check_interval_secs == 0 ==> text@
                == "health_check_interval_secs must be >= 1"@
            &&& c.health_check_interval_secs != 0 ==> exists|i: int|
                0 <= i < c.interfaces.names().len() && c.interfaces@[#[trigger] c.interfaces.names()[i]].weight
                    == 0 && (forall|j: int|
                    0 <= j < i ==> c.interfaces@[#[trigger] c.interfaces.names()[j]].weight != 0)
                    && text@ == "weight of "@ + c.interfaces.names()[i]
                    + " must be >= 1 (use enabled=false to disable)"@
        },
{
    if c.health_check_interval_secs != 0 {
        let text = e->Config_0;
        let i = choose|i: int| #[trigger]
            c.first_without_weight(i) && text@ == weight_complaint(c.interfaces.names()[i]);
        assert(c.interfaces@[c.interfaces.names()[i]].weight == 0);
    }
}

/// Without settings, flows are balanced by hash among all interfaces, each of which goes by
/// its kind; aggregation is on and health is checked every five seconds.
pub proof fn law_default_settings(name: Seq<char>)
    ensures
        default_config().valid(),
        default_config().strategy == Strategy::LoadBalance,
        default_config().algorithm == BalanceAlgorithm::Hash,
        default_config().health_check_interval_secs == 5,
        default_config().enabled,
        !default_config().interfaces.contains_key(name),
{
}

} // verus!
