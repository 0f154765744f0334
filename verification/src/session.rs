//! Userspace NAT session table for the aggregator's data plane.
//!
//! Outbound packets from the TUN (source = the TUN address) are rewritten to
//! use the selected egress interface's IP address and sent out the raw egress
//! socket. Reply packets arriving on that interface are matched against the
//! session table and reverse-NATed back into the TUN.
//!
//! Sessions are keyed by the client 4-tuple; the NAT keeps the client source
//! port as the external source port (port-preserving), which is safe across
//! distinct egress IPs.

use crate::addr::{address_of, law_address_reads_back, Ipv4Addr};
use crate::packet::{law_ip6_text_is_not_dotted, parsed_v6, hextets_at, Flow, FlowView};
use std::collections::HashMap;
use vstd::prelude::*;

verus! {

/// A tracked bidirectional NAT session.
#[derive(Debug)]
pub struct Session {
    pub client_ip: Ipv4Addr,
    pub client_port: u16,
    pub server_ip: Ipv4Addr,
    pub server_port: u16,
    pub proto: u8,
    pub egress_iface: String,
    pub egress_ip: Ipv4Addr,
    /// Packets forwarded on the outbound leg.
    pub tx_packets: u64,
    /// Packets forwarded on the return leg.
    pub rx_packets: u64,
}

/// What a [`Session`] holds.
pub struct SessionView {
    pub client_ip: Ipv4Addr,
    pub client_port: u16,
    pub server_ip: Ipv4Addr,
    pub server_port: u16,
    pub proto: u8,
    pub egress_iface: Seq<char>,
    pub egress_ip: Ipv4Addr,
    pub tx_packets: u64,
    pub rx_packets: u64,
}

impl View for Session {
    type V = SessionView;

    open spec fn view(&self) -> SessionView {
        SessionView {
            client_ip: self.client_ip,
            client_port: self.client_port,
            server_ip: self.server_ip,
            server_port: self.server_port,
            proto: self.proto,
            egress_iface: self.egress_iface@,
            egress_ip: self.egress_ip,
            tx_packets: self.tx_packets,
            rx_packets: self.rx_packets,
        }
    }
}

impl Clone for Session {
    fn clone(&self) -> (r: Self)
        ensures
            r == *self,
    {
        Session {
            client_ip: self.client_ip,
            client_port: self.client_port,
            server_ip: self.server_ip,
            server_port: self.server_port,
            proto: self.proto,
            egress_iface: self.egress_iface.clone(),
            egress_ip: self.egress_ip,
            tx_packets: self.tx_packets,
            rx_packets: self.rx_packets,
        }
    }
}

/// The two ends of one direction of a flow.
pub struct Ends {
    pub proto: u8,
    pub src: Ipv4Addr,
    pub sport: u16,
    pub dst: Ipv4Addr,
    pub dport: u16,
}

impl SessionView {
    /// The ends of the packets that the client sends.
    pub open spec fn outbound(self) -> Ends {
        Ends {
            proto: self.proto,
            src: self.client_ip,
            sport: self.client_port,
            dst: self.server_ip,
            dport: self.server_port,
        }
    }

    /// The ends of the replies, as they arrive at the egress interface.
    pub open spec fn inbound(self) -> Ends {
        Ends {
            proto: self.proto,
            src: self.server_ip,
            sport: self.server_port,
            dst: self.egress_ip,
            dport: self.client_port,
        }
    }
}

/// The ends of `flow`, where both of its addresses are IPv4.
pub open spec fn ends_of(flow: FlowView) -> Option<Ends> {
    match (address_of(flow.src), address_of(flow.dst)) {
        (Some(src), Some(dst)) => Some(
            Ends { proto: flow.proto, src, sport: flow.sport, dst, dport: flow.dport },
        ),
        _ => None,
    }
}

/// The session of the flow with the given ends that leaves by `iface` as `ip`, before
/// any packet.
pub open spec fn fresh_session(ends: Ends, iface: Seq<char>, ip: Ipv4Addr) -> SessionView {
    SessionView {
        client_ip: ends.src,
        client_port: ends.sport,
        server_ip: ends.dst,
        server_port: ends.dport,
        proto: ends.proto,
        egress_iface: iface,
        egress_ip: ip,
        tx_packets: 0,
        rx_packets: 0,
    }
}

/// The place of the session in `s` whose outbound packets have the given ends: the
/// first, though there is never a second.
pub open spec fn session_sending(s: Seq<SessionView>, ends: Ends) -> Option<int>
    decreases s.len(),
{
    if s.len() == 0 {
        None
    } else {
        match session_sending(s.drop_last(), ends) {
            Some(k) => Some(k),
            None => if s.last().outbound() == ends {
                Some(s.len() - 1)
            } else {
                None
            },
        }
    }
}

/// The place of the session in `s` whose replies have the given ends, the one that was
/// registered first.
pub open spec fn session_receiving(s: Seq<SessionView>, ends: Ends) -> Option<int>
    decreases s.len(),
{
    if s.len() == 0 {
        None
    } else {
        match session_receiving(s.drop_last(), ends) {
            Some(k) => Some(k),
            None => if s.last().inbound() == ends {
                Some(s.len() - 1)
            } else {
                None
            },
        }
    }
}

/// The sessions after the flow `flow` was registered to leave by `iface` as `ip`.
pub open spec fn registered(
    s: Seq<SessionView>,
    flow: FlowView,
    iface: Seq<char>,
    ip: Ipv4Addr,
) -> Seq<SessionView> {
    match ends_of(flow) {
        Some(ends) => if session_sending(s, ends) is Some {
            s
        } else {
            s.push(fresh_session(ends, iface, ip))
        },
        None => s,
    }
}

/// The session that the flow `flow` has after it was registered.
pub open spec fn session_of(
    s: Seq<SessionView>,
    flow: FlowView,
    iface: Seq<char>,
    ip: Ipv4Addr,
) -> Option<SessionView> {
    match ends_of(flow) {
        Some(ends) => match session_sending(s, ends) {
            Some(k) => Some(s[k]),
            None => Some(fresh_session(ends, iface, ip)),
        },
        None => None,
    }
}

/// What the session in `s` holds, where there is one.
pub open spec fn session_view(s: Option<Session>) -> Option<SessionView> {
    match s {
        Some(x) => Some(x@),
        None => None,
    }
}

/// An address as a number.
spec fn number(ip: Ipv4Addr) -> int {
    ((ip.a * 256 + ip.b) * 256 + ip.c) * 256 + ip.d
}

/// The ends of a flow as a number.
spec fn packed(e: Ends) -> int {
    (((e.proto * 0x1_0000_0000 + number(e.src)) * 0x1_0000 + e.sport) * 0x1_0000_0000 + number(
        e.dst,
    )) * 0x1_0000 + e.dport
}

proof fn lemma_number_injective(x: Ipv4Addr, y: Ipv4Addr)
    ensures
        0 <= number(x) < 0x1_0000_0000,
        number(x) == number(y) ==> x == y,
{
}

proof fn lemma_digits_unique(m: int, a: int, b: int, c: int, d: int)
    requires
        0 <= b < m,
        0 <= d < m,
        a * m + b == c * m + d,
    ensures
        a == c,
        b == d,
{
    assert(a == c) by (nonlinear_arith)
        requires
            0 <= b < m,
            0 <= d < m,
            a * m + b == c * m + d,
    ;
}

proof fn lemma_packed_injective(x: Ends, y: Ends)
    requires
        packed(x) == packed(y),
    ensures
        x == y,
{
    lemma_number_injective(x.src, y.src);
    lemma_number_injective(x.dst, y.dst);
    lemma_number_injective(y.src, x.src);
    lemma_number_injective(y.dst, x.dst);
    let (a, b) = (number(x.src), number(y.src));
    let (c, d) = (number(x.dst), number(y.dst));
    let p1 = x.proto * 0x1_0000_0000 + a;
    let q1 = y.proto * 0x1_0000_0000 + b;
    let p2 = p1 * 0x1_0000 + x.sport;
    let q2 = q1 * 0x1_0000 + y.sport;
    let p3 = p2 * 0x1_0000_0000 + c;
    let q3 = q2 * 0x1_0000_0000 + d;
    lemma_digits_unique(0x1_0000, p3, x.dport as int, q3, y.dport as int);
    lemma_digits_unique(0x1_0000_0000, p2, c, q2, d);
    lemma_digits_unique(0x1_0000, p1, x.sport as int, q1, y.sport as int);
    lemma_digits_unique(0x1_0000_0000, x.proto as int, a, y.proto as int, b);
}

fn number_of(ip: Ipv4Addr) -> (r: u128)
    ensures
        r == number(ip),
        r < 0x1_0000_0000,
{
    ((ip.a as u128 * 256 + ip.b as u128) * 256 + ip.c as u128) * 256 + ip.d as u128
}

fn pack(proto: u8, src: Ipv4Addr, sport: u16, dst: Ipv4Addr, dport: u16) -> (r: u128)
    ensures
        r == packed(Ends { proto, src, sport, dst, dport }),
{
    (((proto as u128 * 0x1_0000_0000 + number_of(src)) * 0x1_0000 + sport as u128)
        * 0x1_0000_0000 + number_of(dst)) * 0x1_0000 + dport as u128
}

/// The live NAT sessions.
#[derive(Debug)]
pub struct NatTable {
    sessions: Vec<Session>,
    by_outbound: HashMap<u128, usize>,
    by_return: HashMap<u128, usize>,
}

impl View for NatTable {
    type V = Seq<SessionView>;

    /// The sessions in the order in which they were registered.
    closed spec fn view(&self) -> Seq<SessionView> {
        self.sessions@.map_values(|s: Session| s@)
    }
}

impl Default for NatTable {
    fn default() -> (r: NatTable)
        ensures
            r@ == Seq::<SessionView>::empty(),
    {
        NatTable::new()
    }
}

impl NatTable {
    /// The indices hold the sessions' ends and nothing else.
    #[verifier::type_invariant]
    spec fn indexed(self) -> bool {
        &&& forall|e: Ends|
            indexed_at(self.by_outbound@, e) == #[trigger] session_sending(self@, e)
        &&& forall|e: Ends|
            indexed_at(self.by_return@, e) == #[trigger] session_receiving(self@, e)
    }

    /// The table without sessions.
    pub fn new() -> (r: NatTable)
        ensures
            r@ == Seq::<SessionView>::empty(),
    {
        let sessions: Vec<Session> = Vec::new();
        let by_outbound: HashMap<u128, usize> = HashMap::new();
        let by_return: HashMap<u128, usize> = HashMap::new();
        let ghost none = sessions@.map_values(|s: Session| s@);
        assert(none =~= Seq::<SessionView>::empty());
        NatTable { sessions, by_outbound, by_return }
    }

    /// Number of live sessions.
    pub fn sessions(&self) -> (r: usize)
        ensures
            r == self@.len(),
    {
        self.sessions.len()
    }

    /// Register (or reuse) a session for an outbound flow. Returns the session; `None`
    /// where one of the flow's addresses is not IPv4.
    pub fn register(&mut self, flow: &Flow, egress_iface: &str, egress_ip: Ipv4Addr) -> (r: Option<
        Session,
    >)
        ensures
            session_view(r) == session_of(old(self)@, flow@, egress_iface@, egress_ip),
            final(self)@ == registered(old(self)@, flow@, egress_iface@, egress_ip),
    {
        broadcast use vstd::std_specs::hash::group_hash_axioms;

        let client_ip = match Ipv4Addr::parse(flow.src.as_str()) {
            Some(ip) => ip,
            None => return None,
        };
        let server_ip = match Ipv4Addr::parse(flow.dst.as_str()) {
            Some(ip) => ip,
            None => return None,
        };
        let ghost ends = Ends {
            proto: flow.proto,
            src: client_ip,
            sport: flow.sport,
            dst: server_ip,
            dport: flow.dport,
        };
        let mut whole = NatTable::new();
        std::mem::swap(self, &mut whole);
        proof {
            use_type_invariant(&whole);
        }
        let ghost before = whole@;
        let key: u128 = pack(flow.proto, client_ip, flow.sport, server_ip, flow.dport);
        let known: Option<usize> = match whole.by_outbound.get(&key) {
            Some(k) => Some(*k),
            None => None,
        };
        assert(indexed_at(whole.by_outbound@, ends) == session_sending(before, ends));
        if let Some(k) = known {
            proof {
                lemma_sending_in_range(before, ends);
            }
            let found = whole.sessions[k].clone();
            *self = whole;
            return Some(found);
        }
        let session = Session {
            client_ip,
            client_port: flow.sport,
            server_ip,
            server_port: flow.dport,
            proto: flow.proto,
            egress_iface: egress_iface.to_string(),
            egress_ip,
            tx_packets: 0,
            rx_packets: 0,
        };
        let ghost fresh = session@;
        let ghost back = fresh.inbound();
        let NatTable { mut sessions, mut by_outbound, mut by_return } = whole;
        let ghost outbound_before = by_outbound@;
        let ghost return_before = by_return@;
        let at: usize = sessions.len();
        let ret_key: u128 = pack(flow.proto, server_ip, flow.dport, egress_ip, flow.sport);
        by_outbound.insert(key, at);
        if !by_return.contains_key(&ret_key) {
            by_return.insert(ret_key, at);
        }
        let out = session.clone();
        sessions.push(session);
        proof {
            let after = sessions@.map_values(|s: Session| s@);
            assert(after =~= before.push(fresh));
            assert(after.drop_last() =~= before);
            assert(fresh.outbound() == ends);
            assert forall|e: Ends| indexed_at(by_outbound@, e) == #[trigger] session_sending(
                after,
                e,
            ) by {
                assert(indexed_at(outbound_before, e) == session_sending(before, e));
                if packed(e) == packed(ends) {
                    lemma_packed_injective(e, ends);
                }
                lemma_packed_range(e);
                lemma_packed_range(ends);
            }
            assert forall|e: Ends| indexed_at(by_return@, e) == #[trigger] session_receiving(
                after,
                e,
            ) by {
                assert(indexed_at(return_before, e) == session_receiving(before, e));
                if packed(e) == packed(back) {
                    lemma_packed_injective(e, back);
                }
                lemma_packed_range(e);
                lemma_packed_range(back);
            }
        }
        *self = NatTable { sessions, by_outbound, by_return };
        Some(out)
    }

    /// Look up the session for a return packet (already addressed to the
    /// egress IP). Returns the session to reverse-NAT into: of several, the one that
    /// was registered first.
    pub fn lookup_return(
        &self,
        proto: u8,
        src_ip: Ipv4Addr,
        sport: u16,
        dst_ip: Ipv4Addr,
        dport: u16,
    ) -> (r: Option<Session>)
        ensures
            session_view(r) == match session_receiving(
                self@,
                Ends { proto, src: src_ip, sport, dst: dst_ip, dport },
            ) {
                Some(k) => Some(self@[k]),
                None => None,
            },
    {
        broadcast use vstd::std_specs::hash::group_hash_axioms;

        proof {
            use_type_invariant(self);
        }
        let ghost ends = Ends { proto, src: src_ip, sport, dst: dst_ip, dport };
        let key: u128 = pack(proto, src_ip, sport, dst_ip, dport);
        assert(indexed_at(self.by_return@, ends) == session_receiving(self@, ends));
        match self.by_return.get(&key) {
            Some(k) => {
                proof {
                    lemma_receiving_in_range(self@, ends);
                }
                Some(self.sessions[*k].clone())
            },
            None => None,
        }
    }
}

/// Where the index `m` puts the ends `e`.
spec fn indexed_at(m: Map<u128, usize>, e: Ends) -> Option<int> {
    if m.contains_key(packed(e) as u128) {
        Some(m[packed(e) as u128] as int)
    } else {
        None
    }
}

proof fn lemma_packed_range(e: Ends)
    ensures
        0 <= packed(e) <= u128::MAX,
{
    lemma_number_injective(e.src, e.src);
    lemma_number_injective(e.dst, e.dst);
}

proof fn lemma_sending_in_range(s: Seq<SessionView>, ends: Ends)
    ensures
        session_sending(s, ends) matches Some(k) ==> 0 <= k < s.len() && s[k].outbound() == ends,
    decreases s.len(),
{
    if s.len() > 0 {
        lemma_sending_in_range(s.drop_last(), ends);
    }
}

proof fn lemma_receiving_in_range(s: Seq<SessionView>, ends: Ends)
    ensures
        session_receiving(s, ends) matches Some(k) ==> 0 <= k < s.len() && s[k].inbound() == ends,
    decreases s.len(),
{
    if s.len() > 0 {
        lemma_receiving_in_range(s.drop_last(), ends);
    }
}

proof fn lemma_sending_found(s: Seq<SessionView>, ends: Ends, i: int)
    requires
        0 <= i < s.len(),
        s[i].outbound() == ends,
    ensures
        session_sending(s, ends) matches Some(k) && 0 <= k <= i && s[k].outbound() == ends,
    decreases s.len(),
{
    if i < s.len() - 1 {
        lemma_sending_found(s.drop_last(), ends, i);
    } else {
        lemma_sending_in_range(s.drop_last(), ends);
    }
}

proof fn lemma_receiving_found(s: Seq<SessionView>, ends: Ends, i: int)
    requires
        0 <= i < s.len(),
        s[i].inbound() == ends,
    ensures
        session_receiving(s, ends) matches Some(k) && 0 <= k <= i && s[k].inbound() == ends,
    decreases s.len(),
{
    if i < s.len() - 1 {
        lemma_receiving_found(s.drop_last(), ends, i);
    } else {
        lemma_receiving_in_range(s.drop_last(), ends);
    }
}

/// A registered flow has a session that sends its packets, and nothing that was in the
/// table is changed.
pub proof fn law_registered_flow_has_session(
    s: Seq<SessionView>,
    flow: FlowView,
    iface: Seq<char>,
    ip: Ipv4Addr,
)
    requires
        ends_of(flow) is Some,
    ensures
        session_of(s, flow, iface, ip) matches Some(x) && x.outbound() == ends_of(flow)->0,
        session_sending(registered(s, flow, iface, ip), ends_of(flow)->0) matches Some(k) && 0 <= k
            < registered(s, flow, iface, ip).len() && Some(registered(s, flow, iface, ip)[k])
            == session_of(s, flow, iface, ip),
        s.is_prefix_of(registered(s, flow, iface, ip)),
{
    let ends = ends_of(flow)->0;
    lemma_sending_in_range(s, ends);
    if session_sending(s, ends) is None {
        let after = registered(s, flow, iface, ip);
        assert(after.drop_last() =~= s);
    }
}

/// Replies find their way back: a reply to the egress address that a registered flow
/// leaves by is given a session whose replies have the same ends, and the flow's own
/// session unless an earlier one has them.
pub proof fn law_reply_finds_session(
    s: Seq<SessionView>,
    flow: FlowView,
    iface: Seq<char>,
    ip: Ipv4Addr,
)
    requires
        ends_of(flow) is Some,
    ensures
        session_of(s, flow, iface, ip) matches Some(x) && session_receiving(
            registered(s, flow, iface, ip),
            x.inbound(),
        ) matches Some(k) && 0 <= k < registered(s, flow, iface, ip).len() && registered(
            s,
            flow,
            iface,
            ip,
        )[k].inbound() == x.inbound() && (session_receiving(s, x.inbound()) is None ==> registered(
            s,
            flow,
            iface,
            ip,
        )[k] == x),
{
    let after = registered(s, flow, iface, ip);
    law_registered_flow_has_session(s, flow, iface, ip);
    let at = session_sending(after, ends_of(flow)->0)->0;
    let x = after[at];
    lemma_receiving_found(after, x.inbound(), at);
    if session_receiving(s, x.inbound()) is None {
        lemma_sending_in_range(s, ends_of(flow)->0);
        if session_sending(s, ends_of(flow)->0) is Some {
            lemma_receiving_found(s, x.inbound(), at);
        }
        assert(after.drop_last() =~= s);
    }
}

/// A reply whose ends no session has finds none.
pub proof fn law_stray_reply_finds_nothing(s: Seq<SessionView>, ends: Ends)
    ensures
        session_receiving(s, ends) is None <==> forall|i: int|
            0 <= i < s.len() ==> (#[trigger] s[i]).inbound() != ends,
{
    lemma_receiving_in_range(s, ends);
    if session_receiving(s, ends) is None {
        assert forall|i: int| 0 <= i < s.len() implies (#[trigger] s[i]).inbound() != ends by {
            if s[i].inbound() == ends {
                lemma_receiving_found(s, ends, i);
            }
        }
    }
}

/// Registering a flow again changes nothing and gives the same session, whatever
/// interface is asked for.
pub proof fn law_same_flow_reuses_session(
    s: Seq<SessionView>,
    flow: FlowView,
    iface: Seq<char>,
    ip: Ipv4Addr,
    other_iface: Seq<char>,
    other_ip: Ipv4Addr,
)
    ensures
        registered(registered(s, flow, iface, ip), flow, other_iface, other_ip) == registered(
            s,
            flow,
            iface,
            ip,
        ),
        session_of(registered(s, flow, iface, ip), flow, other_iface, other_ip) == session_of(
            s,
            flow,
            iface,
            ip,
        ),
{
    if ends_of(flow) is Some {
        law_registered_flow_has_session(s, flow, iface, ip);
    }
}

/// A flow that no session sends adds exactly one session.
pub proof fn law_new_flow_adds_session(
    s: Seq<SessionView>,
    flow: FlowView,
    iface: Seq<char>,
    ip: Ipv4Addr,
)
    requires
        ends_of(flow) is Some,
        forall|i: int| 0 <= i < s.len() ==> (#[trigger] s[i]).outbound() != ends_of(flow)->0,
    ensures
        registered(s, flow, iface, ip).len() == s.len() + 1,
{
    lemma_sending_in_range(s, ends_of(flow)->0);
}

/// No two sessions of `s` send packets with the same ends.
pub open spec fn one_session_per_flow(s: Seq<SessionView>) -> bool {
    forall|i: int, j: int|
        0 <= i < j < s.len() ==> (#[trigger] s[i]).outbound() != (#[trigger] s[j]).outbound()
}

/// The empty table has one session for each flow at most, and registering keeps that.
pub proof fn law_one_session_per_flow(
    s: Seq<SessionView>,
    flow: FlowView,
    iface: Seq<char>,
    ip: Ipv4Addr,
)
    requires
        one_session_per_flow(s),
    ensures
        one_session_per_flow(Seq::<SessionView>::empty()),
        one_session_per_flow(registered(s, flow, iface, ip)),
{
    if ends_of(flow) is Some && session_sending(s, ends_of(flow)->0) is None {
        let ends = ends_of(flow)->0;
        let after = registered(s, flow, iface, ip);
        assert forall|i: int, j: int| 0 <= i < j < after.len() implies (#[trigger] after[i]).outbound()
            != (#[trigger] after[j]).outbound() by {
            if j == s.len() && after[i].outbound() == ends {
                lemma_sending_found(s, ends, i);
            }
        }
    }
}

/// What a reply finds stays: later registrations do not change the session that given
/// ends lead to.
pub proof fn law_found_session_stays(
    s: Seq<SessionView>,
    ends: Ends,
    flow: FlowView,
    iface: Seq<char>,
    ip: Ipv4Addr,
)
    ensures
        session_receiving(s, ends) matches Some(k) ==> 0 <= k < s.len() && session_receiving(
            registered(s, flow, iface, ip),
            ends,
        ) == Some(k) && registered(s, flow, iface, ip)[k] == s[k],
{
    lemma_receiving_in_range(s, ends);
    let after = registered(s, flow, iface, ip);
    if after.len() > s.len() {
        assert(after.drop_last() =~= s);
    }
}

/// Keeping the client's port is safe across egress addresses: sessions that leave by
/// different ones never share the ends of their replies.
pub proof fn law_egress_addresses_part_replies(x: SessionView, y: SessionView)
    requires
        x.egress_ip != y.egress_ip,
    ensures
        x.inbound() != y.inbound(),
{
}

/// IPv6 flows are never registered.
pub proof fn law_ipv6_flows_have_no_session(
    s: Seq<SessionView>,
    pkt: Seq<u8>,
    iface: Seq<char>,
    ip: Ipv4Addr,
)
    requires
        parsed_v6(pkt) is Some,
    ensures
        ends_of(parsed_v6(pkt)->0) is None,
        registered(s, parsed_v6(pkt)->0, iface, ip) == s,
{
    let src = parsed_v6(pkt)->0.src;
    if exists|x: Ipv4Addr| #[trigger] x.dotted() == src {
        let x = choose|x: Ipv4Addr| #[trigger] x.dotted() == src;
        law_ip6_text_is_not_dotted(hextets_at(pkt, 8), x);
    }
}

/// Whether `x` is the session of a client and a server, by their addresses, ports and
/// protocol.
pub open spec fn joins(
    x: SessionView,
    proto: u8,
    client: Ipv4Addr,
    cport: u16,
    server: Ipv4Addr,
    sport: u16,
) -> bool {
    &&& x.proto == proto
    &&& x.client_ip == client
    &&& x.client_port == cport
    &&& x.server_ip == server
    &&& x.server_port == sport
}

/// Every flow between IPv4 addresses, of whatever protocol, has a session once it is
/// registered: the one that joins its client and server already, and else a new one behind
/// the others, which leaves by the interface and address asked for and has counted no
/// packet.
pub proof fn law_registration(
    s: Seq<SessionView>,
    flow: FlowView,
    client: Ipv4Addr,
    server: Ipv4Addr,
    iface: Seq<char>,
    ip: Ipv4Addr,
)
    requires
        flow.src == client.dotted(),
        flow.dst == server.dotted(),
    ensures
        session_of(s, flow, iface, ip) matches Some(x) && {
            &&& joins(x, flow.proto, client, flow.sport, server, flow.dport)
            &&& (forall|i: int|
                0 <= i < s.len() ==> !joins(
                    #[trigger] s[i],
                    flow.proto,
                    client,
                    flow.sport,
                    server,
                    flow.dport,
                )) ==> x.egress_iface == iface && x.egress_ip == ip && x.tx_packets == 0
                && x.rx_packets == 0 && registered(s, flow, iface, ip) == s.push(x)
        },
        forall|k: int|
            0 <= k < s.len() && joins(
                #[trigger] s[k],
                flow.proto,
                client,
                flow.sport,
                server,
                flow.dport,
            ) && (forall|i: int|
                0 <= i < k ==> !joins(
                    #[trigger] s[i],
                    flow.proto,
                    client,
                    flow.sport,
                    server,
                    flow.dport,
                )) ==> session_of(s, flow, iface, ip) == Some(s[k]) && registered(s, flow, iface, ip)
                == s,
{
    law_address_reads_back(client);
    law_address_reads_back(server);
    let ends = Ends {
        proto: flow.proto,
        src: client,
        sport: flow.sport,
        dst: server,
        dport: flow.dport,
    };
    lemma_sending_in_range(s, ends);
    assert forall|k: int|
        0 <= k < s.len() && joins(
            #[trigger] s[k],
            flow.proto,
            client,
            flow.sport,
            server,
            flow.dport,
        ) && (forall|i: int|
            0 <= i < k ==> !joins(
                #[trigger] s[i],
                flow.proto,
                client,
                flow.sport,
                server,
                flow.dport,
            )) implies session_of(s, flow, iface, ip) == Some(s[k]) && registered(
        s,
        flow,
        iface,
        ip,
    ) == s by {
        lemma_sending_found(s, ends, k);
        let m = session_sending(s, ends)->0;
        assert(joins(s[m], flow.proto, client, flow.sport, server, flow.dport));
    }
}

/// A flow with an address that is not IPv4 is not registered.
pub proof fn law_other_flows_are_not_registered(
    s: Seq<SessionView>,
    flow: FlowView,
    iface: Seq<char>,
    ip: Ipv4Addr,
)
    requires
        (forall|x: Ipv4Addr| #[trigger] x.dotted() != flow.src) || (forall|x: Ipv4Addr|
            #[trigger] x.dotted() != flow.dst),
    ensures
        session_of(s, flow, iface, ip) is None,
        registered(s, flow, iface, ip) == s,
{
}

/// Whether packets from `src` to `dst` are replies in the session `x`: they come from its
/// server and go to its egress address and its client's port.
pub open spec fn replies(
    x: SessionView,
    proto: u8,
    src: Ipv4Addr,
    sport: u16,
    dst: Ipv4Addr,
    dport: u16,
) -> bool {
    &&& x.proto == proto
    &&& x.server_ip == src
    &&& x.server_port == sport
    &&& x.egress_ip == dst
    &&& x.client_port == dport
}

/// A return packet, of whatever protocol, finds the first session that it is a reply in,
/// and none where it is a reply in no session.
pub proof fn law_return_lookup(
    s: Seq<SessionView>,
    proto: u8,
    src: Ipv4Addr,
    sport: u16,
    dst: Ipv4Addr,
    dport: u16,
)
    ensures
        forall|k: int|
            0 <= k < s.len() && replies(#[trigger] s[k], proto, src, sport, dst, dport) && (forall|
                i: int,
            |
                0 <= i < k ==> !replies(#[trigger] s[i], proto, src, sport, dst, dport))
                ==> session_receiving(s, Ends { proto, src, sport, dst, dport }) == Some(k),
        (forall|i: int|
            0 <= i < s.len() ==> !replies(#[trigger] s[i], proto, src, sport, dst, dport))
            ==> session_receiving(s, Ends { proto, src, sport, dst, dport }) is None,
{
    let ends = Ends { proto, src, sport, dst, dport };
    lemma_receiving_in_range(s, ends);
    assert forall|k: int|
        0 <= k < s.len() && replies(#[trigger] s[k], proto, src, sport, dst, dport) && (forall|
            i: int,
        |
            0 <= i < k ==> !replies(#[trigger] s[i], proto, src, sport, dst, dport)) implies session_receiving(
    s, ends) == Some(k) by {
        lemma_receiving_found(s, ends, k);
        let m = session_receiving(s, ends)->0;
        assert(replies(s[m], proto, src, sport, dst, dport));
    }
}

} // verus!
