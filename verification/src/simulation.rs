//! Simulated traffic: generated packets go through the aggregator's routing.

use crate::aggregator::{egress_for, sim_candidate, texts, turn_for, Aggregator};
use crate::generator::{
    generated, law_generated_packet_has_flow, GeneratorView, PcapGenerator,
};
use crate::interface::InterfaceKind;
use crate::packet::parsed;
use crate::policy::{
    candidate_views, choice, law_choice_exists, next_turn, BalanceAlgorithm, CandidateView,
    ConfigView, Strategy,
};
use vstd::prelude::*;

verus! {

/// The most packets that one step of the simulation makes.
pub const MAX_PACKETS: usize = 2000;

/// The length that a simulated packet is reckoned with.
pub const PACKET_BYTES: u64 = 150;

/// What was forwarded.
#[derive(Debug, Clone, Copy, PartialEq, Eq, Structural)]
pub struct Traffic {
    pub packets: u64,
    pub bytes: u64,
}

/// The links that the simulation works with where the host has none.
pub open spec fn demo_links() -> Seq<CandidateView> {
    seq![
        sim_candidate(("eth0 (模拟)", InterfaceKind::Ethernet, 30, 3)),
        sim_candidate(("wlan0 (模拟)", InterfaceKind::Wifi, 20, 2)),
        sim_candidate(("wwan0 (模拟)", InterfaceKind::Cellular, 25, 1)),
    ]
}

/// Ensure that there are schedulable links for the demo.
pub fn ensure_links(agg: &mut Aggregator)
    ensures
        candidate_views(final(agg).candidates@) == if old(agg).candidates@.len() == 0 {
            demo_links()
        } else {
            candidate_views(old(agg).candidates@)
        },
        *final(agg) == (Aggregator { candidates: final(agg).candidates, ..*old(agg) }),
{
    if agg.candidates.len() == 0 {
        let links: [(&str, InterfaceKind, u32, u32); 3] = [
            ("eth0 (模拟)", InterfaceKind::Ethernet, 30, 3),
            ("wlan0 (模拟)", InterfaceKind::Wifi, 20, 2),
            ("wwan0 (模拟)", InterfaceKind::Cellular, 25, 1),
        ];
        agg.inject_sim_candidates(links.as_slice());
        assert(candidate_views(agg.candidates@) =~= demo_links());
    }
}

/// The state that simulated packets change.
pub struct Simulation {
    pub turn: u64,
    pub flows: Map<Seq<char>, Seq<char>>,
    pub generator: GeneratorView,
    pub traffic: Traffic,
}

/// The length of the next packet after `packets` were forwarded.
pub open spec fn next_length(packets: u64) -> nat {
    (96 + packets % 5 * 64) as nat
}

impl Simulation {
    /// The next packet.
    pub open spec fn packet(self) -> Seq<u8> {
        generated(self.generator.number(), next_length(self.traffic.packets))
    }

    /// The interface that the next packet is given to.
    pub open spec fn egress(self, config: ConfigView, candidates: Seq<CandidateView>) -> Option<
        Seq<char>,
    > {
        egress_for(config, candidates, self.turn, self.packet())
    }

    /// Whether the next packet gets a decision.
    pub open spec fn decided(self, config: ConfigView) -> bool {
        config.enabled && parsed(self.packet()) is Some
    }

    /// The state after the next packet.
    pub open spec fn stepped(self, config: ConfigView, candidates: Seq<CandidateView>) -> Simulation {
        let pkt = self.packet();
        Simulation {
            turn: turn_for(config, candidates, self.turn, pkt),
            flows: match self.egress(config, candidates) {
                Some(name) => self.flows.insert(parsed(pkt)->0.key(), name),
                None => self.flows,
            },
            generator: self.generator.after(),
            traffic: match self.egress(config, candidates) {
                Some(_) => Traffic {
                    packets: self.traffic.packets.wrapping_add(1),
                    bytes: self.traffic.bytes.wrapping_add(PACKET_BYTES),
                },
                None => self.traffic,
            },
        }
    }

    /// The state after `n` packets, or after the first that gets no decision.
    pub open spec fn run(
        self,
        config: ConfigView,
        candidates: Seq<CandidateView>,
        n: nat,
    ) -> Simulation
        decreases n,
    {
        if n == 0 {
            self
        } else if self.decided(config) {
            self.stepped(config, candidates).run(config, candidates, (n - 1) as nat)
        } else {
            self.stepped(config, candidates)
        }
    }
}

/// How many of `n` packets one step makes.
pub open spec fn bounded(n: usize) -> nat {
    if n < MAX_PACKETS {
        n as nat
    } else {
        MAX_PACKETS as nat
    }
}

/// The state of a simulation.
pub open spec fn state_of(agg: Aggregator, generator: PcapGenerator, traffic: Traffic) -> Simulation {
    Simulation {
        turn: agg.rr_counter,
        flows: texts(agg.flow_table@),
        generator: generator@,
        traffic,
    }
}

fn simulate_one(agg: &mut Aggregator, generator: &mut PcapGenerator, traffic: &mut Traffic) -> (r:
    bool)
    ensures
        state_of(*final(agg), *final(generator), *final(traffic)) == state_of(
            *old(agg),
            *old(generator),
            *old(traffic),
        ).stepped(old(agg).config@, candidate_views(old(agg).candidates@)),
        r <==> state_of(*old(agg), *old(generator), *old(traffic)).decided(old(agg).config@),
        *final(agg) == (Aggregator {
            rr_counter: final(agg).rr_counter,
            flow_table: final(agg).flow_table,
            ..*old(agg)
        }),
{
    let len: usize = 96 + (traffic.packets % 5) as usize * 64;
    let pkt = generator.next_packet(len);
    match agg.route(pkt.as_slice()) {
        Some(d) => {
            if d.interface.is_some() {
                traffic.packets = traffic.packets.wrapping_add(1);
                traffic.bytes = traffic.bytes.wrapping_add(PACKET_BYTES);
            }
            true
        },
        None => false,
    }
}

/// Routes `n` generated packets, or the most that one step makes, and counts those that
/// are given an interface; stops at the first that gets no decision.
pub fn simulate(
    agg: &mut Aggregator,
    generator: &mut PcapGenerator,
    traffic: &mut Traffic,
    n: usize,
)
    ensures
        state_of(*final(agg), *final(generator), *final(traffic)) == state_of(
            *old(agg),
            *old(generator),
            *old(traffic),
        ).run(old(agg).config@, candidate_views(old(agg).candidates@), bounded(n)),
        *final(agg) == (Aggregator {
            rr_counter: final(agg).rr_counter,
            flow_table: final(agg).flow_table,
            ..*old(agg)
        }),
{
    let most: usize = if n < MAX_PACKETS {
        n
    } else {
        MAX_PACKETS
    };
    let ghost config = agg.config@;
    let ghost links = candidate_views(agg.candidates@);
    let ghost end = state_of(*agg, *generator, *traffic).run(config, links, bounded(n));
    let mut i: usize = 0;
    while i < most
        invariant
            i <= most,
            end == state_of(*old(agg), *old(generator), *old(traffic)).run(
                old(agg).config@,
                candidate_views(old(agg).candidates@),
                bounded(n),
            ),
            config == agg.config@,
            links == candidate_views(agg.candidates@),
            agg.config == old(agg).config,
            agg.mode == old(agg).mode,
            agg.stats == old(agg).stats,
            agg.candidates == old(agg).candidates,
            end == state_of(*agg, *generator, *traffic).run(config, links, (most - i) as nat),
        decreases most - i,
    {
        let decided: bool = simulate_one(agg, generator, traffic);
        if !decided {
            return ;
        }
        i = i + 1;
    }
}

/// While a link can carry the flows, every generated packet is forwarded and counted.
pub proof fn law_simulation_forwards(
    s: Simulation,
    config: ConfigView,
    candidates: Seq<CandidateView>,
    n: nat,
)
    requires
        config.enabled,
        exists|i: int|
            0 <= i < candidates.len() && (#[trigger] candidates[i]).usable() && (
            config.strategy is Failover || config.algorithm !is LeastLoaded
                || candidates[i].load is Some),
        s.traffic.packets + n <= u64::MAX,
        s.traffic.bytes + n * PACKET_BYTES <= u64::MAX,
    ensures
        s.run(config, candidates, n).traffic.packets == s.traffic.packets + n,
        s.run(config, candidates, n).traffic.bytes == s.traffic.bytes + n * PACKET_BYTES,
    decreases n,
{
    if n > 0 {
        let pkt = s.packet();
        law_generated_packet_has_flow(s.generator.number(), next_length(s.traffic.packets));
        law_choice_exists(
            config.strategy,
            config.algorithm,
            candidates,
            parsed(pkt)->0.key(),
            s.turn,
        );
        law_simulation_forwards(
            s.stepped(config, candidates),
            config,
            candidates,
            (n - 1) as nat,
        );
    }
}

/// Where no link can carry the flows, or aggregation is off, nothing is forwarded.
pub proof fn law_simulation_forwards_nothing(
    s: Simulation,
    config: ConfigView,
    candidates: Seq<CandidateView>,
    n: nat,
)
    requires
        !config.enabled || forall|i: int|
            0 <= i < candidates.len() ==> !(#[trigger] candidates[i]).usable(),
    ensures
        s.run(config, candidates, n).traffic == s.traffic,
        s.run(config, candidates, n).flows == s.flows,
    decreases n,
{
    if n > 0 {
        let pkt = s.packet();
        if config.enabled && parsed(pkt) is Some {
            law_choice_exists(
                config.strategy,
                config.algorithm,
                candidates,
                parsed(pkt)->0.key(),
                s.turn,
            );
        }
        law_simulation_forwards_nothing(s.stepped(config, candidates), config, candidates, (n - 1) as nat);
    }
}

/// The demo links carry every flow, whatever the strategy.
pub proof fn law_demo_links_carry(
    strategy: Strategy,
    algorithm: BalanceAlgorithm,
    flow_key: Seq<char>,
    turn: u64,
)
    ensures
        choice(strategy, algorithm, demo_links(), flow_key, turn) is Some,
{
    assert(demo_links()[0].usable());
    law_choice_exists(strategy, algorithm, demo_links(), flow_key, turn);
}

/// A simulated packet has 96 bytes, and 64 more for each packet forwarded, up to four times
/// and then over again; it is made by the generator, and counts as a packet of 150 bytes
/// where it is given an interface, and not at all else.
pub proof fn law_simulated_packet(
    s: Simulation,
    config: ConfigView,
    candidates: Seq<CandidateView>,
)
    ensures
        s.packet().len() == 96 + s.traffic.packets as int % 5 * 64,
        s.packet() == generated(s.generator.number(), s.packet().len()),
        s.stepped(config, candidates).generator == s.generator.after(),
        config.enabled ==> parsed(s.packet()) is Some && ({
            let key = parsed(s.packet())->0.key();
            let to = choice(config.strategy, config.algorithm, candidates, key, s.turn);
            let t = s.stepped(config, candidates);
            &&& t.turn == next_turn(config.strategy, config.algorithm, candidates, s.turn)
            &&& to matches Some(name) ==> t.flows == s.flows.insert(key, name) && t.traffic.packets
                == (s.traffic.packets + 1) % 0x1_0000_0000_0000_0000 && t.traffic.bytes == (
            s.traffic.bytes + 150) % 0x1_0000_0000_0000_0000
            &&& to is None ==> t.flows == s.flows && t.traffic == s.traffic
        }),
        !config.enabled ==> s.stepped(config, candidates).flows == s.flows && s.stepped(
            config,
            candidates,
        ).traffic == s.traffic && s.stepped(config, candidates).turn == s.turn,
{
    law_generated_packet_has_flow(s.generator.number(), next_length(s.traffic.packets));
}

/// Simulated packets follow each other: `n` and then `m` come to the same as both together
/// while aggregation is enabled; while it is not, a step ends with its first packet. A step
/// makes no more than 2000.
pub proof fn law_simulation_goes_on(
    s: Simulation,
    config: ConfigView,
    candidates: Seq<CandidateView>,
    n: nat,
    m: nat,
    most: usize,
)
    ensures
        s.run(config, candidates, 0) == s,
        s.run(config, candidates, 1) == s.stepped(config, candidates),
        config.enabled ==> s.run(config, candidates, n + m) == s.run(config, candidates, n).run(
            config,
            candidates,
            m,
        ),
        !config.enabled && n > 0 ==> s.run(config, candidates, n) == s.stepped(config, candidates),
        most <= 2000 ==> bounded(most) == most,
        most > 2000 ==> bounded(most) == 2000,
    decreases n,
{
    law_generated_packet_has_flow(s.generator.number(), next_length(s.traffic.packets));
    let t = s.stepped(config, candidates);
    assert(t.run(config, candidates, 0) == t);
    if n > 0 {
        law_simulation_goes_on(t, config, candidates, (n - 1) as nat, m, most);
    }
}

/// The demo has one wired, one Wi-Fi and one cellular link, all of which serve traffic and
/// have no load; the wired one is preferred, then the cellular one, and their weights are
/// three, two and one.
pub proof fn law_demo_links(i: int)
    requires
        0 <= i < demo_links().len(),
    ensures
        demo_links().len() == 3,
        demo_links()[i].policy.enabled && demo_links()[i].healthy && demo_links()[i].load == Some(0i64),
        demo_links()[i].policy.weight == 3 - i,
        i == 0 ==> demo_links()[i].kind == InterfaceKind::Ethernet && demo_links()[i].policy.priority
            == 30 && demo_links()[i].name == "eth0 (模拟)"@,
        i == 1 ==> demo_links()[i].kind == InterfaceKind::Wifi && demo_links()[i].policy.priority
            == 20 && demo_links()[i].name == "wlan0 (模拟)"@,
        i == 2 ==> demo_links()[i].kind == InterfaceKind::Cellular && demo_links()[i].policy.priority
            == 25 && demo_links()[i].name == "wwan0 (模拟)"@,
{
}

} // verus!
