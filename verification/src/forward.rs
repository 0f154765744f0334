//! The decisions of the data plane: which packets leave by which interface under which
//! address, and which replies go back to which client.

use crate::addr::{address_of, law_address_reads_back, Ipv4Addr};
use crate::aggregator::{law_every_flow_is_routed, texts, Aggregator};
use crate::names::NameMap;
use crate::packet::{
    hextets_at, law_ip6_text_is_not_dotted, law_rewrite_changes, law_rewrite_keeps_flow,
    law_v4_flow, law_what_is_rewritable, parse, parsed, readdressed, rewritable,
    rewrite_ipv4_dest, rewrite_ipv4_source, version, FlowView, DEST_AT, SOURCE_AT,
};
use crate::policy::{candidate_views, choice, CandidateIface, CandidateView};
use crate::session::{
    ends_of, law_found_session_stays, law_registered_flow_has_session, law_reply_finds_session,
    law_return_lookup, law_stray_reply_finds_nothing, registered, replies, session_of,
    session_receiving, NatTable, SessionView,
};
use vstd::prelude::*;

verus! {

/// The length of an Ethernet header.
pub const ETHERNET_HEADER: usize = 14;

/// Drops the Ethernet header of the frame in the first `n` bytes of `buf`. Returns the
/// length of the packet, which then stands at the start of `buf`; zero for a frame that
/// holds none.
pub fn strip_ethernet(buf: &mut [u8], n: usize) -> (r: usize)
    requires
        n <= old(buf)@.len(),
    ensures
        r == if n > ETHERNET_HEADER {
            n - ETHERNET_HEADER
        } else {
            0
        },
        n > 14 ==> r == n - 14 && forall|i: int| 0 <= i < r ==> final(buf)@[i] == old(buf)@[i + 14],
        n <= 14 ==> r == 0,
        final(buf)@ == if n > ETHERNET_HEADER {
            old(buf)@.subrange(ETHERNET_HEADER as int, n as int) + old(buf)@.skip(
                n - ETHERNET_HEADER,
            )
        } else {
            old(buf)@
        },
{
    if n <= ETHERNET_HEADER {
        return 0;
    }
    let m: usize = n - ETHERNET_HEADER;
    let mut i: usize = 0;
    while i < m
        invariant
            i <= m,
            m + ETHERNET_HEADER == n,
            n <= old(buf)@.len(),
            buf@.len() == old(buf)@.len(),
            forall|j: int| 0 <= j < i ==> buf@[j] == old(buf)@[j + ETHERNET_HEADER],
            forall|j: int| i <= j < buf@.len() ==> buf@[j] == old(buf)@[j],
        decreases m - i,
    {
        buf[i] = buf[i + ETHERNET_HEADER];
        i = i + 1;
    }
    assert(buf@ =~= old(buf)@.subrange(ETHERNET_HEADER as int, n as int) + old(buf)@.skip(
        n - ETHERNET_HEADER,
    ));
    m
}

/// The usable candidates of `s` that have an address, each with it, in the same order.
pub open spec fn planned(
    s: Seq<CandidateView>,
    addresses: Map<Seq<char>, Ipv4Addr>,
) -> Seq<(Seq<char>, Ipv4Addr)>
    decreases s.len(),
{
    if s.len() == 0 {
        Seq::empty()
    } else {
        let rest = planned(s.drop_last(), addresses);
        if s.last().usable() && addresses.contains_key(s.last().name) {
            rest.push((s.last().name, addresses[s.last().name]))
        } else {
            rest
        }
    }
}

/// What the pairs in `s` hold.
pub open spec fn pair_views(s: Seq<(String, Ipv4Addr)>) -> Seq<(Seq<char>, Ipv4Addr)> {
    s.map_values(|p: (String, Ipv4Addr)| (p.0@, p.1))
}

/// The interfaces to open sockets on, each with its address: the usable candidates that
/// have one.
pub fn egress_plan(candidates: &Vec<CandidateIface>, addresses: &NameMap<Ipv4Addr>) -> (r: Vec<
    (String, Ipv4Addr),
>)
    ensures
        pair_views(r@) == planned(candidate_views(candidates@), addresses@),
{
    let mut plan: Vec<(String, Ipv4Addr)> = Vec::new();
    let ghost all = candidate_views(candidates@);
    let mut i: usize = 0;
    assert(pair_views(plan@) =~= planned(all.take(0), addresses@));
    while i < candidates.len()
        invariant
            i <= candidates@.len(),
            all == candidate_views(candidates@),
            pair_views(plan@) == planned(all.take(i as int), addresses@),
        decreases candidates@.len() - i,
    {
        let c = &candidates[i];
        assert(all.take(i + 1).drop_last() =~= all.take(i as int));
        assert(all.take(i + 1).last() == c@);
        if c.policy.enabled && c.healthy {
            if let Some(ip) = addresses.get(c.name.as_str()) {
                let ghost before = pair_views(plan@);
                let pair = (c.name.clone(), *ip);
                let ghost x = (pair.0@, pair.1);
                plan.push(pair);
                assert(pair_views(plan@) =~= before.push(x));
            }
        }
        i = i + 1;
    }
    assert(all.take(i as int) =~= all);
    plan
}

/// A packet to send.
#[derive(Debug)]
pub struct Outgoing {
    /// The interface to send it by.
    pub iface: String,
    /// Where it goes.
    pub dst: Ipv4Addr,
    /// The packet, with the interface's address as its source.
    pub packet: Vec<u8>,
}

/// The interface and address that a packet leaves by: the one that it is routed to,
/// where that has an address and the packet's destination is IPv4.
pub open spec fn leaves_by(
    agg: Aggregator,
    addresses: Map<Seq<char>, Ipv4Addr>,
    pkt: Seq<u8>,
) -> Option<(Seq<char>, Ipv4Addr)> {
    match agg.egress(pkt) {
        Some(iface) => if addresses.contains_key(iface) && address_of(parsed(pkt)->0.dst) is Some {
            Some((iface, addresses[iface]))
        } else {
            None
        },
        None => None,
    }
}

/// The sessions after a packet was taken from the tunnel.
pub open spec fn sessions_after(
    agg: Aggregator,
    sessions: Seq<SessionView>,
    addresses: Map<Seq<char>, Ipv4Addr>,
    pkt: Seq<u8>,
) -> Seq<SessionView> {
    match leaves_by(agg, addresses, pkt) {
        Some((iface, ip)) => registered(sessions, parsed(pkt)->0, iface, ip),
        None => sessions,
    }
}

/// Whether a packet taken from the tunnel is sent.
pub open spec fn is_sent(
    agg: Aggregator,
    addresses: Map<Seq<char>, Ipv4Addr>,
    pkt: Seq<u8>,
) -> bool {
    leaves_by(agg, addresses, pkt) is Some && ends_of(parsed(pkt)->0) is Some && rewritable(pkt)
}

/// Takes a packet from the tunnel: picks its interface per the current policy, registers
/// the NAT session (port-preserving) and rewrites the source to the interface's address.
/// `None` where the packet is dropped.
pub fn outbound(
    agg: &mut Aggregator,
    table: &mut NatTable,
    addresses: &NameMap<Ipv4Addr>,
    pkt: &[u8],
) -> (r: Option<Outgoing>)
    ensures
        final(agg).rr_counter == old(agg).turn_after(pkt@),
        texts(final(agg).flow_table@) == old(agg).flows_after(pkt@),
        *final(agg) == (Aggregator {
            rr_counter: final(agg).rr_counter,
            flow_table: final(agg).flow_table,
            ..*old(agg)
        }),
        final(table)@ == sessions_after(*old(agg), old(table)@, addresses@, pkt@),
        r is Some <==> is_sent(*old(agg), addresses@, pkt@),
        r matches Some(o) ==> leaves_by(*old(agg), addresses@, pkt@) matches Some((iface, ip))
            && o.iface@ == iface && address_of(parsed(pkt@)->0.dst) == Some(o.dst) && o.packet@
            == readdressed(pkt@, SOURCE_AT as int, ip@),
        r is Some <==> {
            &&& old(agg).config.enabled
            &&& pkt@.len() >= 20
            &&& pkt@[0] as int / 16 == 4
            &&& 20 <= pkt@[0] as int % 16 * 4 <= pkt@.len()
            &&& choice(
                old(agg).config.strategy,
                old(agg).config.algorithm,
                candidate_views(old(agg).candidates@),
                parsed(pkt@)->0.key(),
                old(agg).rr_counter,
            ) matches Some(iface) && addresses@.contains_key(iface)
        },
        r matches Some(o) ==> {
            &&& addresses@.contains_key(o.iface@)
            &&& choice(
                old(agg).config.strategy,
                old(agg).config.algorithm,
                candidate_views(old(agg).candidates@),
                parsed(pkt@)->0.key(),
                old(agg).rr_counter,
            ) == Some(o.iface@)
            &&& o.dst@ == pkt@.subrange(16, 20)
            &&& o.packet@.len() == pkt@.len()
            &&& o.packet@.subrange(12, 16) == addresses@[o.iface@]@
            &&& o.packet@.subrange(16, 20) == pkt@.subrange(16, 20)
        },
{
    proof {
        lemma_sent(*agg, table@, addresses@, pkt@);
    }
    let decision = match agg.route(pkt) {
        Some(d) => d,
        None => return None,
    };
    let iface = match decision.interface {
        Some(name) => name,
        None => return None,
    };
    let egress_ip: Ipv4Addr = match addresses.get(iface.as_str()) {
        Some(ip) => *ip,
        None => return None,
    };
    let dst = match Ipv4Addr::parse(decision.flow.dst.as_str()) {
        Some(ip) => ip,
        None => return None,
    };
    match table.register(&decision.flow, iface.as_str(), egress_ip) {
        Some(_) => {},
        None => return None,
    }
    let mut packet = copied(pkt);
    if !rewrite_ipv4_source(packet.as_mut_slice(), egress_ip) {
        return None;
    }
    Some(Outgoing { iface, dst, packet })
}

/// A packet is sent exactly when it has a complete IPv4 header and the interface chosen for
/// its flow has an address; it then holds that address, and goes where it went.
proof fn lemma_sent(
    agg: Aggregator,
    sessions: Seq<SessionView>,
    addresses: Map<Seq<char>, Ipv4Addr>,
    pkt: Seq<u8>,
)
    ensures
        ({
            let to = choice(
                agg.config.strategy,
                agg.config.algorithm,
                candidate_views(agg.candidates@),
                parsed(pkt)->0.key(),
                agg.rr_counter,
            );
            &&& is_sent(agg, addresses, pkt) <==> {
                &&& agg.config.enabled
                &&& pkt.len() >= 20
                &&& pkt[0] as int / 16 == 4
                &&& 20 <= pkt[0] as int % 16 * 4 <= pkt.len()
                &&& to matches Some(iface) && addresses.contains_key(iface)
            }
            &&& is_sent(agg, addresses, pkt) ==> {
                let out = readdressed(pkt, SOURCE_AT as int, addresses[to->0]@);
                &&& leaves_by(agg, addresses, pkt) == Some((to->0, addresses[to->0]))
                &&& address_of(parsed(pkt)->0.dst) matches Some(dst) && dst@ == pkt.subrange(16, 20)
                &&& out.len() == pkt.len()
                &&& out.subrange(12, 16) == addresses[to->0]@
                &&& out.subrange(16, 20) == pkt.subrange(16, 20)
            }
        }),
{
    let n = pkt[0] as int % 16 * 4;
    let to = choice(
        agg.config.strategy,
        agg.config.algorithm,
        candidate_views(agg.candidates@),
        parsed(pkt)->0.key(),
        agg.rr_counter,
    );
    if agg.config.enabled && pkt.len() >= 20 && pkt[0] as int / 16 == 4 && 20 <= n <= pkt.len()
        && to is Some && addresses.contains_key(to->0) {
        let dst = Ipv4Addr { a: pkt[16], b: pkt[17], c: pkt[18], d: pkt[19] };
        law_every_flow_is_sent(agg, sessions, addresses, pkt, n, to->0);
        law_v4_flow(pkt, n);
        law_address_reads_back(dst);
        law_rewrite_changes(pkt, SOURCE_AT as int, addresses[to->0]@);
        assert(dst@ =~= pkt.subrange(16, 20));
        assert(readdressed(pkt, SOURCE_AT as int, addresses[to->0]@).subrange(16, 20)
            =~= pkt.subrange(16, 20));
    } else {
        if pkt.len() > 0 && pkt[0] as int / 16 == 4 {
            law_v4_flow(pkt, n);
        }
        law_nothing_else_is_sent(agg, sessions, addresses, pkt);
    }
}

/// The bytes of `pkt` in a place of their own.
fn copied(pkt: &[u8]) -> (r: Vec<u8>)
    ensures
        r@ == pkt@,
{
    let mut out: Vec<u8> = Vec::new();
    let mut i: usize = 0;
    while i < pkt.len()
        invariant
            i <= pkt@.len(),
            out@ == pkt@.take(i as int),
        decreases pkt@.len() - i,
    {
        out.push(pkt[i]);
        i = i + 1;
        assert(out@ =~= pkt@.take(i as int));
    }
    assert(out@ =~= pkt@);
    out
}

/// The session that a packet captured on an interface is a reply of.
pub open spec fn reply_session(sessions: Seq<SessionView>, pkt: Seq<u8>) -> Option<SessionView> {
    if pkt.len() >= 20 && version(pkt) == 4 && parsed(pkt) is Some && ends_of(parsed(pkt)->0)
        is Some {
        match session_receiving(sessions, ends_of(parsed(pkt)->0)->0) {
            Some(k) => Some(sessions[k]),
            None => None,
        }
    } else {
        None
    }
}

/// Takes a packet that was captured on an interface. Where it is a reply of a session,
/// its destination becomes the client's address, and it is to go into the tunnel; else
/// it stays as it is.
pub fn inbound(table: &NatTable, pkt: &mut [u8]) -> (r: bool)
    ensures
        r <==> reply_session(table@, old(pkt)@) is Some,
        final(pkt)@ == match reply_session(table@, old(pkt)@) {
            Some(s) => readdressed(old(pkt)@, DEST_AT as int, s.client_ip@),
            None => old(pkt)@,
        },
{
    if pkt.len() < 20 || pkt[0] / 16 != 4 {
        return false;
    }
    let flow = match parse(&*pkt) {
        Some(f) => f,
        None => return false,
    };
    let src = match Ipv4Addr::parse(flow.src.as_str()) {
        Some(ip) => ip,
        None => return false,
    };
    let dst = match Ipv4Addr::parse(flow.dst.as_str()) {
        Some(ip) => ip,
        None => return false,
    };
    match table.lookup_return(flow.proto, src, flow.sport, dst, flow.dport) {
        Some(session) => rewrite_ipv4_dest(pkt, session.client_ip),
        None => false,
    }
}

/// What is sent is the same flow under the interface's address, and only IPv4 is sent.
pub proof fn law_sent_packet_has_new_source(
    agg: Aggregator,
    addresses: Map<Seq<char>, Ipv4Addr>,
    pkt: Seq<u8>,
)
    requires
        is_sent(agg, addresses, pkt),
    ensures
        version(pkt) == 4,
        leaves_by(agg, addresses, pkt) matches Some((iface, ip)) && parsed(
            readdressed(pkt, SOURCE_AT as int, ip@),
        ) == Some(FlowView { src: ip.dotted(), ..parsed(pkt)->0 }),
{
    let (iface, ip) = leaves_by(agg, addresses, pkt)->0;
    law_rewrite_keeps_flow(pkt, ip);
}

/// The flow in the other direction of `flow`, to the address `to`.
pub open spec fn answer_to(flow: FlowView, to: Seq<char>) -> FlowView {
    FlowView {
        src: flow.dst,
        dst: to,
        proto: flow.proto,
        sport: flow.dport,
        dport: flow.sport,
    }
}

/// A reply comes back to the client: after a packet was sent as `ip`, one in the other
/// direction, from the server to `ip`, is put into the tunnel as the exact reverse of the
/// client's flow. (The flow's session `x` has to leave by the address that the packet was
/// sent from, and no other session may have replies with the same ends.)
pub proof fn law_reply_reaches_client(
    agg: Aggregator,
    sessions: Seq<SessionView>,
    addresses: Map<Seq<char>, Ipv4Addr>,
    pkt: Seq<u8>,
    iface: Seq<char>,
    ip: Ipv4Addr,
    x: SessionView,
    reply: Seq<u8>,
)
    requires
        is_sent(agg, addresses, pkt),
        leaves_by(agg, addresses, pkt) == Some((iface, ip)),
        session_of(sessions, parsed(pkt)->0, iface, ip) == Some(x),
        x.egress_ip == ip,
        session_receiving(sessions, x.inbound()) matches Some(k) ==> sessions[k] == x,
        reply.len() >= 20,
        version(reply) == 4,
        parsed(reply) == Some(answer_to(parsed(pkt)->0, ip.dotted())),
    ensures
        reply_session(sessions_after(agg, sessions, addresses, pkt), reply) == Some(x),
        parsed(readdressed(reply, DEST_AT as int, x.client_ip@)) == Some(
            answer_to(parsed(pkt)->0, parsed(pkt)->0.src),
        ),
{
    let flow = parsed(pkt)->0;
    law_address_reads_back(ip);
    law_registered_flow_has_session(sessions, flow, iface, ip);
    law_reply_finds_session(sessions, flow, iface, ip);
    law_found_session_stays(sessions, x.inbound(), flow, iface, ip);
    assert(ends_of(parsed(reply)->0) == Some(x.inbound()));
    law_rewrite_keeps_flow(reply, x.client_ip);
}

/// A packet that is no reply of a session is left as it is.
pub proof fn law_stray_packet_has_no_session(sessions: Seq<SessionView>, pkt: Seq<u8>)
    requires
        parsed(pkt) matches Some(flow) ==> (ends_of(flow) matches Some(ends) ==> forall|i: int|
            0 <= i < sessions.len() ==> (#[trigger] sessions[i]).inbound() != ends),
    ensures
        reply_session(sessions, pkt) is None,
{
    if parsed(pkt) is Some && ends_of(parsed(pkt)->0) is Some {
        law_stray_reply_finds_nothing(sessions, ends_of(parsed(pkt)->0)->0);
    }
}

/// A packet with a complete IPv4 header is sent, whatever its protocol, whenever
/// aggregation is enabled and the interface that is chosen for its flow has an address: by
/// that interface, under that address. Its flow is then registered with both.
pub proof fn law_every_flow_is_sent(
    agg: Aggregator,
    sessions: Seq<SessionView>,
    addresses: Map<Seq<char>, Ipv4Addr>,
    pkt: Seq<u8>,
    n: int,
    iface: Seq<char>,
)
    requires
        agg.config.enabled,
        pkt.len() >= 20,
        pkt[0] as int / 16 == 4,
        n == pkt[0] as int % 16 * 4,
        20 <= n <= pkt.len(),
        parsed(pkt) matches Some(f) ==> choice(
            agg.config.strategy,
            agg.config.algorithm,
            candidate_views(agg.candidates@),
            f.key(),
            agg.rr_counter,
        ) == Some(iface),
        addresses.contains_key(iface),
    ensures
        parsed(pkt) is Some,
        is_sent(agg, addresses, pkt),
        leaves_by(agg, addresses, pkt) == Some((iface, addresses[iface])),
        sessions_after(agg, sessions, addresses, pkt) == registered(
            sessions,
            parsed(pkt)->0,
            iface,
            addresses[iface],
        ),
{
    let src = Ipv4Addr { a: pkt[12], b: pkt[13], c: pkt[14], d: pkt[15] };
    let dst = Ipv4Addr { a: pkt[16], b: pkt[17], c: pkt[18], d: pkt[19] };
    law_v4_flow(pkt, n);
    law_what_is_rewritable(pkt);
    law_every_flow_is_routed(agg, pkt);
    law_address_reads_back(src);
    law_address_reads_back(dst);
}

/// No other packet is sent, and none other changes the sessions: not while aggregation is
/// disabled, not without a complete IPv4 header, and not where no interface is chosen or
/// the one that is has no address.
pub proof fn law_nothing_else_is_sent(
    agg: Aggregator,
    sessions: Seq<SessionView>,
    addresses: Map<Seq<char>, Ipv4Addr>,
    pkt: Seq<u8>,
)
    requires
        ({
            ||| !agg.config.enabled
            ||| pkt.len() < 20
            ||| pkt[0] as int / 16 != 4
            ||| pkt[0] as int % 16 * 4 < 20
            ||| pkt[0] as int % 16 * 4 > pkt.len()
            ||| parsed(pkt) matches Some(f) && {
                let to = choice(
                    agg.config.strategy,
                    agg.config.algorithm,
                    candidate_views(agg.candidates@),
                    f.key(),
                    agg.rr_counter,
                );
                to is None || !addresses.contains_key(to->0)
            }
        }),
    ensures
        !is_sent(agg, addresses, pkt),
        leaves_by(agg, addresses, pkt) is None,
        sessions_after(agg, sessions, addresses, pkt) == sessions,
{
    law_every_flow_is_routed(agg, pkt);
    if parsed(pkt) is Some && pkt[0] as int / 16 == 4 {
        law_v4_flow(pkt, pkt[0] as int % 16 * 4);
    } else if parsed(pkt) is Some {
        let dst = parsed(pkt)->0.dst;
        if exists|x: Ipv4Addr| #[trigger] x.dotted() == dst {
            let x = choose|x: Ipv4Addr| #[trigger] x.dotted() == dst;
            law_ip6_text_is_not_dotted(hextets_at(pkt, 24), x);
        }
    }
}

/// A captured IPv4 packet, of whatever protocol, goes back to the first session that it is
/// a reply in, by the addresses in its header, its protocol and its ports; where there is no
/// such session it goes nowhere.
pub proof fn law_reply_is_recognised(
    sessions: Seq<SessionView>,
    pkt: Seq<u8>,
    n: int,
    src: Ipv4Addr,
    sport: u16,
    dst: Ipv4Addr,
    dport: u16,
)
    requires
        pkt.len() >= 20,
        pkt[0] as int / 16 == 4,
        n == pkt[0] as int % 16 * 4,
        20 <= n <= pkt.len(),
        src@ == pkt.subrange(12, 16),
        dst@ == pkt.subrange(16, 20),
        (pkt[9] == 6 || pkt[9] == 17) && pkt.len() >= n + 4 ==> sport == pkt[n] * 256 + pkt[n + 1]
            && dport == pkt[n + 2] * 256 + pkt[n + 3],
        (pkt[9] != 6 && pkt[9] != 17) || pkt.len() < n + 4 ==> sport == 0 && dport == 0,
    ensures
        forall|k: int|
            0 <= k < sessions.len() && replies(
                #[trigger] sessions[k],
                pkt[9],
                src,
                sport,
                dst,
                dport,
            ) && (forall|i: int|
                0 <= i < k ==> !replies(#[trigger] sessions[i], pkt[9], src, sport, dst, dport))
                ==> reply_session(sessions, pkt) == Some(sessions[k]),
        (forall|i: int|
            0 <= i < sessions.len() ==> !replies(
                #[trigger] sessions[i],
                pkt[9],
                src,
                sport,
                dst,
                dport,
            )) ==> reply_session(sessions, pkt) is None,
{
    assert(src@[0] == pkt[12] && src@[1] == pkt[13] && src@[2] == pkt[14] && src@[3] == pkt[15]);
    assert(dst@[0] == pkt[16] && dst@[1] == pkt[17] && dst@[2] == pkt[18] && dst@[3] == pkt[19]);
    law_v4_flow(pkt, n);
    law_address_reads_back(src);
    law_address_reads_back(dst);
    law_return_lookup(sessions, pkt[9], src, sport, dst, dport);
}

/// A captured packet without a complete IPv4 header goes nowhere.
pub proof fn law_no_other_packet_is_a_reply(sessions: Seq<SessionView>, pkt: Seq<u8>)
    requires
        pkt.len() < 20 || pkt[0] as int / 16 != 4 || pkt[0] as int % 16 * 4 < 20 || pkt[0] as int
            % 16 * 4 > pkt.len(),
    ensures
        reply_session(sessions, pkt) is None,
{
}

/// Sockets are opened on exactly the candidates that are enabled and healthy and have an
/// address, each once and with that address, in the candidates' order.
pub proof fn law_plan(
    a: Seq<CandidateView>,
    b: Seq<CandidateView>,
    c: CandidateView,
    addresses: Map<Seq<char>, Ipv4Addr>,
)
    ensures
        planned(a + b, addresses) == planned(a, addresses) + planned(b, addresses),
        planned(seq![c], addresses) == if c.policy.enabled && c.healthy && addresses.contains_key(
            c.name,
        ) {
            seq![(c.name, addresses[c.name])]
        } else {
            Seq::empty()
        },
    decreases b.len(),
{
    let (x, y) = (planned(a, addresses), planned(b, addresses));
    assert(seq![c].drop_last() =~= Seq::<CandidateView>::empty());
    assert(planned(Seq::<CandidateView>::empty(), addresses) =~= Seq::empty());
    assert(Seq::<(Seq<char>, Ipv4Addr)>::empty().push((c.name, addresses[c.name])) =~= seq![
        (c.name, addresses[c.name]),
    ]);
    if b.len() == 0 {
        assert(a + b =~= a);
        assert(x + y =~= x);
    } else {
        law_plan(a, b.drop_last(), c, addresses);
        assert((a + b).drop_last() =~= a + b.drop_last());
        assert((a + b).last() == b.last());
        assert(planned(a + b, addresses) =~= x + y);
    }
}

} // verus!
