//! Minimal IPv4/IPv6 packet parsing needed to identify a flow.
//!
//! The aggregator reads layer-3 packets from the TUN device. To apply a
//! per-flow policy we need a stable "5-tuple" key. Only TCP/UDP carry port
//! numbers that matter for the key; other protocols hash on addresses + proto.
//!
//! This module also provides the checksum helpers used by the userspace NAT
//! forwarder (source/destination rewrite for egress and return traffic).

use crate::addr::{dotted, law_dotted_injective, push_dotted, Ipv4Addr};
use crate::text::{lemma_numeral_reads_back, numeral, push_numeral};
use vstd::prelude::*;

verus! {

// ---------------------------------------------------------------------------
// Checksums
// ---------------------------------------------------------------------------

/// The 16-bit big-endian word whose bytes are `hi` and `lo`.
pub open spec fn word(hi: u8, lo: u8) -> nat {
    (hi * 256 + lo) as nat
}

/// The sum of the big-endian 16-bit words of `data`; a last odd byte is the high
/// byte of a word whose low byte is zero.
pub open spec fn word_sum(data: Seq<u8>) -> nat
    decreases data.len(),
{
    if data.len() == 0 {
        0
    } else if data.len() == 1 {
        word(data[0], 0)
    } else {
        word(data[0], data[1]) + word_sum(data.skip(2))
    }
}

/// `n` as a 16-bit ones' complement number: its carries added back in until none is
/// left. Zero stays zero; any other number is brought into `1..=0xffff` modulo
/// `0xffff`.
pub open spec fn ones_complement(n: nat) -> nat {
    if n == 0 {
        0
    } else {
        ((n - 1) % 0xffff + 1) as nat
    }
}

/// The Internet checksum (RFC 1071) of `data`.
pub open spec fn internet_checksum(data: Seq<u8>) -> u16 {
    (0xffff - ones_complement(word_sum(data))) as u16
}

/// Ones' complement addition: adding `w` to a sum that has had its carries added back
/// in gives the sum of both, after its carries are added back in.
proof fn lemma_ones_complement_add(n: nat, w: nat)
    ensures
        ones_complement(ones_complement(n) + w) == ones_complement(n + w),
        ones_complement(n) <= 0xffff,
        n <= 0xffff ==> ones_complement(n) == n,
        n > 0 ==> ones_complement(n) > 0,
{
}

fn add_ones_complement(sum: u32, w: u32) -> (r: u32)
    requires
        sum <= 0xffff,
        w <= 0xffff,
    ensures
        r == ones_complement((sum + w) as nat),
        r <= 0xffff,
{
    let total: u32 = sum + w;
    if total > 0xffff {
        total - 0xffff
    } else {
        total
    }
}

/// `data` with the two bytes at `hole` set to zero, where it has both.
pub open spec fn with_hole(data: Seq<u8>, hole: Option<usize>) -> Seq<u8> {
    match hole {
        Some(at) => if at + 1 < data.len() {
            data.update(at as int, 0).update(at + 1, 0)
        } else {
            data
        },
        None => data,
    }
}

/// Adds the words of `data`, with a hole of two zero bytes where one is given, to
/// `start` in ones' complement arithmetic.
fn sum_words(start: u32, data: &[u8], hole: Option<usize>) -> (r: u32)
    requires
        start <= 0xffff,
        hole matches Some(at) ==> at % 2 == 0,
    ensures
        r <= 0xffff,
        r == ones_complement((start + word_sum(with_hole(data@, hole))) as nat),
{
    let ghost d = with_hole(data@, hole);
    let mut sum: u32 = start;
    let mut i: usize = 0;
    let ghost mut done: nat = start as nat;
    assert(d.skip(0) =~= d);
    while data.len() - i >= 2
        invariant
            i <= data@.len() == d.len(),
            i % 2 == 0,
            d == with_hole(data@, hole),
            hole matches Some(at) ==> at % 2 == 0,
            sum <= 0xffff,
            sum == ones_complement(done),
            done + word_sum(d.skip(i as int)) == start + word_sum(d),
        decreases data@.len() - i,
    {
        let w: u32 = if hole == Some(i) {
            0
        } else {
            data[i] as u32 * 256 + data[i + 1] as u32
        };
        proof {
            assert(w == word(d[i as int], d[i + 1]));
            assert(d.skip(i as int).skip(2) =~= d.skip(i + 2));
            lemma_ones_complement_add(done, w as nat);
            done = done + w as nat;
        }
        sum = add_ones_complement(sum, w);
        i = i + 2;
    }
    if i < data.len() {
        let w: u32 = data[i] as u32 * 256;
        proof {
            assert(w == word(d[i as int], 0));
            lemma_ones_complement_add(done, w as nat);
        }
        sum = add_ones_complement(sum, w);
    }
    sum
}

/// Internet checksum (RFC 1071) over `data`.
pub fn checksum(data: &[u8]) -> (r: u16)
    ensures
        r == internet_checksum(data@),
{
    0xffff - sum_words(0, data, None) as u16
}

/// The two bytes of `x`, most significant first.
pub open spec fn be_bytes(x: u16) -> Seq<u8> {
    seq![(x / 256) as u8, (x % 256) as u8]
}

/// The pseudo-header that the TCP and UDP checksums cover: both addresses, a zero
/// byte, the protocol, and the low 16 bits of the segment's length.
pub open spec fn pseudo_header(src: Seq<u8>, dst: Seq<u8>, proto: u8, len: nat) -> Seq<u8> {
    src + dst + seq![0u8, proto] + be_bytes((len % 0x10000) as u16)
}

/// Where the checksum field of a TCP segment stands (RFC 793).
pub const TCP_CHECKSUM_AT: usize = 16;

/// Where the checksum field of a UDP datagram stands (RFC 768).
pub const UDP_CHECKSUM_AT: usize = 6;

/// The checksum of the pseudo-header and of `l4` with its field at `at` (where it has
/// one) set to zero.
pub open spec fn covering_checksum(
    src: Seq<u8>,
    dst: Seq<u8>,
    proto: u8,
    l4: Seq<u8>,
    at: usize,
) -> u16 {
    internet_checksum(pseudo_header(src, dst, proto, l4.len()) + with_hole(l4, Some(at)))
}

/// The checksum of the segment `l4`: that of the pseudo-header and the segment with
/// its checksum field at offset 16 (where it has one) set to zero.
pub open spec fn segment_checksum(src: Seq<u8>, dst: Seq<u8>, proto: u8, l4: Seq<u8>) -> u16 {
    covering_checksum(src, dst, proto, l4, TCP_CHECKSUM_AT)
}

/// The checksum of the UDP datagram `l4`: that of the pseudo-header and the datagram with
/// its checksum field at offset 6 set to zero, and all ones where that comes out as zero,
/// since a field of zero says that there is no checksum.
pub open spec fn datagram_checksum(src: Seq<u8>, dst: Seq<u8>, l4: Seq<u8>) -> u16 {
    let sum = covering_checksum(src, dst, 17, l4, UDP_CHECKSUM_AT);
    if sum == 0 {
        0xffff
    } else {
        sum
    }
}

/// The words of two byte strings, the first of even length, are the words of both.
proof fn lemma_word_sum_concat(a: Seq<u8>, b: Seq<u8>)
    requires
        a.len() % 2 == 0,
    ensures
        word_sum(a + b) == word_sum(a) + word_sum(b),
    decreases a.len(),
{
    if a.len() == 0 {
        assert(a + b =~= b);
    } else {
        lemma_word_sum_concat(a.skip(2), b);
        assert((a + b).skip(2) =~= a.skip(2) + b);
    }
}

fn checksum_covering(src: [u8; 4], dst: [u8; 4], proto: u8, l4: &[u8], at: usize) -> (r: u16)
    requires
        at % 2 == 0,
    ensures
        r == covering_checksum(src@, dst@, proto, l4@, at),
{
    let len: usize = l4.len() % 0x10000;
    let header: [u8; 12] = [
        src[0],
        src[1],
        src[2],
        src[3],
        dst[0],
        dst[1],
        dst[2],
        dst[3],
        0,
        proto,
        (len / 256) as u8,
        (len % 256) as u8,
    ];
    let ghost segment = with_hole(l4@, Some(at));
    proof {
        assert(header@ =~= pseudo_header(src@, dst@, proto, l4@.len()));
        lemma_word_sum_concat(header@, segment);
        lemma_ones_complement_add(word_sum(header@), word_sum(segment));
    }
    let sum: u32 = sum_words(0, header.as_slice(), None);
    0xffff - sum_words(sum, l4, Some(at)) as u16
}

/// TCP/UDP checksum covering the pseudo-header and the segment, treating the
/// 2-byte checksum field (offset 16) as zero per RFC 793 / 768. That offset is TCP's; a
/// UDP datagram that may hold a checksum already goes to [`udp_checksum`].
pub fn transport_checksum(src: [u8; 4], dst: [u8; 4], proto: u8, l4: &[u8]) -> (r: u16)
    ensures
        r == segment_checksum(src@, dst@, proto, l4@),
{
    checksum_covering(src, dst, proto, l4, TCP_CHECKSUM_AT)
}

/// UDP checksum covering the pseudo-header and the datagram, treating the 2-byte
/// checksum field (offset 6) as zero per RFC 768. It is never zero, which would say that
/// there is no checksum: a sum of zero goes out as all ones.
pub fn udp_checksum(src: [u8; 4], dst: [u8; 4], l4: &[u8]) -> (r: u16)
    ensures
        r == datagram_checksum(src@, dst@, l4@),
        r != 0,
{
    let sum: u16 = checksum_covering(src, dst, 17, l4, UDP_CHECKSUM_AT);
    if sum == 0 {
        0xffff
    } else {
        sum
    }
}

// ---------------------------------------------------------------------------
// Address rewriting
// ---------------------------------------------------------------------------

/// The IP version that `pkt` names.
pub open spec fn version(pkt: Seq<u8>) -> int {
    pkt[0] as int / 16
}

/// The length of the IPv4 header that `pkt` names, in bytes.
pub open spec fn header_len(pkt: Seq<u8>) -> int {
    pkt[0] as int % 16 * 4
}

/// Whether `pkt` is long enough to have its IPv4 addresses rewritten: a version 4
/// packet that holds 20 bytes and the header length that it names.
pub open spec fn rewritable(pkt: Seq<u8>) -> bool {
    pkt.len() >= 20 && version(pkt) == 4 && pkt.len() >= header_len(pkt)
}

/// `pkt` with `bytes` written over it from position `at` on.
pub open spec fn patched(pkt: Seq<u8>, at: int, bytes: Seq<u8>) -> Seq<u8> {
    Seq::new(
        pkt.len(),
        |i: int|
            if at <= i < at + bytes.len() {
                bytes[i - at]
            } else {
                pkt[i]
            },
    )
}

/// The protocols whose checksum covers the addresses.
pub open spec fn is_tcp_or_udp(proto: u8) -> bool {
    proto == 6 || proto == 17
}

/// Where the checksum field of a segment of the given protocol stands.
pub open spec fn checksum_offset(proto: u8) -> int {
    if proto == 17 {
        UDP_CHECKSUM_AT as int
    } else {
        TCP_CHECKSUM_AT as int
    }
}

/// Whether `pkt` holds a TCP segment or a UDP datagram that reaches past its checksum
/// field (the end of the header, for UDP).
pub open spec fn has_segment_checksum(pkt: Seq<u8>) -> bool {
    is_tcp_or_udp(pkt[9]) && pkt.len() >= header_len(pkt) + checksum_offset(pkt[9]) + 2
}

/// Where the IPv4 source address stands.
pub const SOURCE_AT: usize = 12;

/// Where the IPv4 destination address stands.
pub const DEST_AT: usize = 16;

/// `pkt` with its IPv4 header checksum made right.
pub open spec fn with_header_checksum(pkt: Seq<u8>) -> Seq<u8> {
    let blank = patched(pkt, 10, seq![0u8, 0u8]);
    patched(blank, 10, be_bytes(internet_checksum(blank.take(header_len(pkt)))))
}

/// The checksum of the TCP segment or UDP datagram that the IPv4 packet `pkt` holds, by
/// its own addresses.
pub open spec fn own_segment_checksum(pkt: Seq<u8>) -> u16 {
    let src = pkt.subrange(12, 16);
    let dst = pkt.subrange(16, 20);
    let l4 = pkt.skip(header_len(pkt));
    if pkt[9] == 17 {
        datagram_checksum(src, dst, l4)
    } else {
        segment_checksum(src, dst, pkt[9], l4)
    }
}

/// `pkt` with the checksum of its TCP segment or UDP datagram made right, where it has
/// that field. A UDP datagram that came without a checksum gets one.
pub open spec fn with_segment_checksum(pkt: Seq<u8>) -> Seq<u8> {
    if has_segment_checksum(pkt) {
        patched(
            pkt,
            header_len(pkt) + checksum_offset(pkt[9]),
            be_bytes(own_segment_checksum(pkt)),
        )
    } else {
        pkt
    }
}

/// `pkt` with the address `ip` at `at`, and its checksums made right, the header's
/// before the segment's.
pub open spec fn readdressed(pkt: Seq<u8>, at: int, ip: Seq<u8>) -> Seq<u8> {
    with_segment_checksum(with_header_checksum(patched(pkt, at, ip)))
}

/// Writes the two bytes of `x` at `at`.
fn put_word(pkt: &mut [u8], at: usize, x: u16)
    requires
        at + 1 < old(pkt)@.len(),
    ensures
        final(pkt)@ == patched(old(pkt)@, at as int, be_bytes(x)),
{
    pkt[at] = (x / 256) as u8;
    pkt[at + 1] = (x % 256) as u8;
    assert(pkt@ =~= patched(old(pkt)@, at as int, be_bytes(x)));
}

fn readdress(pkt: &mut [u8], at: usize, ip: Ipv4Addr) -> (r: bool)
    requires
        at == SOURCE_AT || at == DEST_AT,
    ensures
        r == rewritable(old(pkt)@),
        final(pkt)@.len() == old(pkt)@.len(),
        r ==> final(pkt)@ == readdressed(old(pkt)@, at as int, ip@),
        !r ==> final(pkt)@ == old(pkt)@,
{
    if pkt.len() < 20 || pkt[0] / 16 != 4 {
        return false;
    }
    let ihl: usize = (pkt[0] % 16) as usize * 4;
    if pkt.len() < ihl {
        return false;
    }
    pkt[at] = ip.a;
    pkt[at + 1] = ip.b;
    pkt[at + 2] = ip.c;
    pkt[at + 3] = ip.d;
    let ghost moved = patched(old(pkt)@, at as int, ip@);
    assert(pkt@ =~= moved);
    put_word(pkt, 10, 0);
    assert(be_bytes(0) =~= seq![0u8, 0u8]);
    let header_sum = checksum(vstd::slice::slice_subrange(&*pkt, 0, ihl));
    assert(pkt@.subrange(0, ihl as int) =~= pkt@.take(ihl as int));
    put_word(pkt, 10, header_sum);
    let ghost headed = with_header_checksum(moved);
    assert(pkt@ == headed);
    assert(headed[0] == old(pkt)@[0]);
    let proto: u8 = pkt[9];
    let field: usize = if proto == 17 {
        UDP_CHECKSUM_AT
    } else {
        TCP_CHECKSUM_AT
    };
    if (proto == 6 || proto == 17) && pkt.len() - ihl >= field + 2 {
        let src: [u8; 4] = [pkt[12], pkt[13], pkt[14], pkt[15]];
        let dst: [u8; 4] = [pkt[16], pkt[17], pkt[18], pkt[19]];
        assert(src@ =~= headed.subrange(12, 16));
        assert(dst@ =~= headed.subrange(16, 20));
        let len: usize = pkt.len();
        let l4 = vstd::slice::slice_subrange(&*pkt, ihl, len);
        assert(pkt@.subrange(ihl as int, len as int) =~= headed.skip(ihl as int));
        let sum: u16 = if proto == 17 {
            udp_checksum(src, dst, l4)
        } else {
            transport_checksum(src, dst, proto, l4)
        };
        put_word(pkt, ihl + field, sum);
    }
    true
}

/// Rewrite the IPv4 source address and fix the IP header checksum plus the
/// TCP/UDP checksum (which covers the pseudo-header). Returns false for
/// non-IPv4 or truncated packets, which stay as they are. The segment's payload is not
/// touched.
pub fn rewrite_ipv4_source(pkt: &mut [u8], new_src: Ipv4Addr) -> (r: bool)
    ensures
        r == rewritable(old(pkt)@),
        r <==> old(pkt)@.len() >= 20 && old(pkt)@[0] as int / 16 == 4 && old(pkt)@.len() >= old(
            pkt,
        )@[0] as int % 16 * 4,
        final(pkt)@.len() == old(pkt)@.len(),
        r ==> final(pkt)@ == readdressed(old(pkt)@, SOURCE_AT as int, new_src@),
        !r ==> final(pkt)@ == old(pkt)@,
{
    readdress(pkt, SOURCE_AT, new_src)
}

/// Rewrite the IPv4 destination address and fix checksums (return path).
pub fn rewrite_ipv4_dest(pkt: &mut [u8], new_dst: Ipv4Addr) -> (r: bool)
    ensures
        r == rewritable(old(pkt)@),
        r <==> old(pkt)@.len() >= 20 && old(pkt)@[0] as int / 16 == 4 && old(pkt)@.len() >= old(
            pkt,
        )@[0] as int % 16 * 4,
        final(pkt)@.len() == old(pkt)@.len(),
        r ==> final(pkt)@ == readdressed(old(pkt)@, DEST_AT as int, new_dst@),
        !r ==> final(pkt)@ == old(pkt)@,
{
    readdress(pkt, DEST_AT, new_dst)
}


// ---------------------------------------------------------------------------
// Flows
// ---------------------------------------------------------------------------

/// A parsed flow descriptor.
#[derive(Debug)]
pub struct Flow {
    pub src: String,
    pub dst: String,
    pub proto: u8,
    pub sport: u16,
    pub dport: u16,
}

impl Clone for Flow {
    fn clone(&self) -> (r: Flow)
        ensures
            r == *self,
    {
        Flow {
            src: self.src.clone(),
            dst: self.dst.clone(),
            proto: self.proto,
            sport: self.sport,
            dport: self.dport,
        }
    }
}

/// What a [`Flow`] holds.
pub struct FlowView {
    pub src: Seq<char>,
    pub dst: Seq<char>,
    pub proto: u8,
    pub sport: u16,
    pub dport: u16,
}

impl View for Flow {
    type V = FlowView;

    open spec fn view(&self) -> FlowView {
        FlowView {
            src: self.src@,
            dst: self.dst@,
            proto: self.proto,
            sport: self.sport,
            dport: self.dport,
        }
    }
}

impl FlowView {
    /// What names the protocol in the flow's identifier: nothing for TCP, and a slash and
    /// its number for the others.
    pub open spec fn proto_suffix(self) -> Seq<char> {
        if self.proto == 6 {
            Seq::empty()
        } else {
            seq!['/'] + numeral(self.proto as nat, 10)
        }
    }

    /// The flow's identifier, which stands for its 5-tuple: `src:sport->dst:dport` for TCP,
    /// and with the protocol behind it (`src:sport->dst:dport/17` for UDP) for the others.
    pub open spec fn key(self) -> Seq<char> {
        self.src + seq![':'] + numeral(self.sport as nat, 10) + seq!['-', '>'] + self.dst + seq![':']
            + numeral(self.dport as nat, 10) + self.proto_suffix()
    }
}

impl Flow {
    /// Human-readable, stable identifier used for hashing and logging: the 5-tuple.
    pub fn key(&self) -> (r: String)
        ensures
            r@ == self@.key(),
    {
        proof {
            reveal_strlit(":");
            reveal_strlit("->");
            reveal_strlit("/");
        }
        let mut out = self.src.clone();
        out.append(":");
        push_numeral(&mut out, self.sport as u64, 10);
        out.append("->");
        out.append(self.dst.as_str());
        out.append(":");
        push_numeral(&mut out, self.dport as u64, 10);
        if self.proto != 6 {
            out.append("/");
            push_numeral(&mut out, self.proto as u64, 10);
        }
        assert(out@ =~= self@.key());
        out
    }
}

/// The big-endian 16-bit number at `at`.
pub open spec fn word_at(pkt: Seq<u8>, at: int) -> u16 {
    word(pkt[at], pkt[at + 1]) as u16
}

/// The flow whose transport header, if it has ports, stands at `at`: the ports are
/// there for TCP and UDP when the packet holds them, and zero otherwise.
pub open spec fn flow_with_ports(
    pkt: Seq<u8>,
    src: Seq<char>,
    dst: Seq<char>,
    proto: u8,
    at: int,
) -> FlowView {
    let ports = is_tcp_or_udp(proto) && pkt.len() >= at + 4;
    FlowView {
        src,
        dst,
        proto,
        sport: if ports {
            word_at(pkt, at)
        } else {
            0
        },
        dport: if ports {
            word_at(pkt, at + 2)
        } else {
            0
        },
    }
}

/// The flow of an IPv4 packet.
pub open spec fn parsed_v4(pkt: Seq<u8>) -> Option<FlowView> {
    if pkt.len() >= 20 && 20 <= header_len(pkt) <= pkt.len() {
        Some(
            flow_with_ports(
                pkt,
                dotted(pkt[12], pkt[13], pkt[14], pkt[15]),
                dotted(pkt[16], pkt[17], pkt[18], pkt[19]),
                pkt[9],
                header_len(pkt),
            ),
        )
    } else {
        None
    }
}

/// The IPv6 extension headers that are walked over: hop-by-hop options, routing,
/// destination options and mobility.
pub open spec fn is_extension(next: u8) -> bool {
    next == 0 || next == 43 || next == 60 || next == 135
}

/// How many IPv6 extension headers are walked over at most.
pub const MAX_EXTENSIONS: usize = 8;

/// What follows at most `fuel` extension headers, the first of which is announced by
/// `next` and stands at `at`: the header announced then, and where it stands. `None`
/// where the packet ends inside the first two bytes of an extension header.
pub open spec fn after_extensions(pkt: Seq<u8>, next: u8, at: int, fuel: nat) -> Option<(u8, int)>
    decreases fuel,
{
    if fuel == 0 || !is_extension(next) {
        Some((next, at))
    } else if pkt.len() < at + 2 {
        None
    } else {
        after_extensions(pkt, pkt[at], at + (pkt[at + 1] + 1) * 8, (fuel - 1) as nat)
    }
}

/// The flow of an IPv6 packet.
pub open spec fn parsed_v6(pkt: Seq<u8>) -> Option<FlowView> {
    if pkt.len() < 40 {
        None
    } else {
        match after_extensions(pkt, pkt[6], 40, MAX_EXTENSIONS as nat) {
            Some((proto, at)) => Some(
                flow_with_ports(
                    pkt,
                    ip6_text(hextets_at(pkt, 8)),
                    ip6_text(hextets_at(pkt, 24)),
                    proto,
                    at,
                ),
            ),
            None => None,
        }
    }
}

/// The flow of an IP packet.
pub open spec fn parsed(pkt: Seq<u8>) -> Option<FlowView> {
    if pkt.len() == 0 {
        None
    } else if version(pkt) == 4 {
        parsed_v4(pkt)
    } else if version(pkt) == 6 {
        parsed_v6(pkt)
    } else {
        None
    }
}

/// The eight hextets of the IPv6 address at `at`.
pub open spec fn hextets_at(pkt: Seq<u8>, at: int) -> Seq<u16> {
    Seq::new(8, |i: int| word_at(pkt, at + 2 * i))
}

/// Hextets in hexadecimal, separated by colons.
pub open spec fn joined(w: Seq<u16>) -> Seq<char>
    decreases w.len(),
{
    if w.len() == 0 {
        Seq::empty()
    } else if w.len() == 1 {
        numeral(w[0] as nat, 16)
    } else {
        joined(w.drop_last()) + seq![':'] + numeral(w.last() as nat, 16)
    }
}

/// The length of the run of zero hextets that starts at `i`.
pub open spec fn zero_run(w: Seq<u16>, i: int) -> int
    decreases w.len() - i,
{
    if 0 <= i < w.len() && w[i] == 0 {
        1 + zero_run(w, i + 1)
    } else {
        0
    }
}

/// Where the longest run of zero hextets at or after `i` starts; the first of several.
pub open spec fn longest_run(w: Seq<u16>, i: int) -> int
    decreases w.len() - i,
{
    if i >= w.len() {
        i
    } else {
        let later = longest_run(w, i + 1);
        if zero_run(w, i) >= zero_run(w, later) {
            i
        } else {
            later
        }
    }
}

/// An IPv6 address as text. The longest run of two or more zero hextets is left out, and
/// two colons stand for it.
pub open spec fn ip6_text(w: Seq<u16>) -> Seq<char> {
    let start = longest_run(w, 0);
    let end = start + zero_run(w, start);
    if end - start < 2 {
        joined(w)
    } else {
        joined(w.take(start)) + seq![':', ':'] + joined(w.skip(end))
    }
}

/// Appends the hextets `w[from..to]` to `out`, in hexadecimal and separated by colons.
fn push_joined(out: &mut String, w: &Vec<u16>, from: usize, to: usize)
    requires
        from <= to <= w@.len(),
    ensures
        final(out)@ == old(out)@ + joined(w@.subrange(from as int, to as int)),
{
    proof {
        reveal_strlit(":");
    }
    let mut i: usize = from;
    assert(old(out)@ + joined(w@.subrange(from as int, from as int)) =~= old(out)@);
    while i < to
        invariant
            from <= i <= to <= w@.len(),
            ":"@ == seq![':'],
            out@ == old(out)@ + joined(w@.subrange(from as int, i as int)),
        decreases to - i,
    {
        let ghost before = out@;
        let ghost next = w@.subrange(from as int, i + 1);
        assert(next.drop_last() =~= w@.subrange(from as int, i as int));
        if i > from {
            out.append(":");
        }
        push_numeral(out, w[i] as u64, 16);
        assert(out@ =~= old(out)@ + joined(next));
        i = i + 1;
    }
}

/// The text of the IPv6 address whose 16 bytes are `b`.
pub fn ip6(b: &[u8]) -> (r: String)
    requires
        b@.len() == 16,
    ensures
        r@ == ip6_text(hextets_at(b@, 0)),
{
    proof {
        reveal_strlit("::");
    }
    let mut w: Vec<u16> = Vec::new();
    let mut k: usize = 0;
    while k < 8
        invariant
            k <= 8,
            b@.len() == 16,
            w@ == hextets_at(b@, 0).take(k as int),
        decreases 8 - k,
    {
        w.push(b[2 * k] as u16 * 256 + b[2 * k + 1] as u16);
        k = k + 1;
        assert(w@ =~= hextets_at(b@, 0).take(k as int));
    }
    assert(w@ =~= hextets_at(b@, 0));

    let mut i: usize = 8;
    let mut run: usize = 0;
    let mut start: usize = 8;
    let mut len: usize = 0;
    while i > 0
        invariant
            i <= 8,
            w@.len() == 8,
            run == zero_run(w@, i as int),
            run <= 8 - i,
            start == longest_run(w@, i as int),
            i <= start <= 8,
            len == zero_run(w@, start as int),
            start + len <= 8,
        decreases i,
    {
        i = i - 1;
        if w[i] == 0 {
            run = run + 1;
        } else {
            run = 0;
        }
        if run >= len {
            start = i;
            len = run;
        }
    }

    let mut out = String::new();
    if len < 2 {
        push_joined(&mut out, &w, 0, 8);
        assert(w@.subrange(0, 8) =~= w@);
    } else {
        push_joined(&mut out, &w, 0, start);
        out.append("::");
        push_joined(&mut out, &w, start + len, 8);
        assert(w@.subrange(0, start as int) =~= w@.take(start as int));
        assert(w@.subrange(start + len, 8) =~= w@.skip(start + len));
    }
    assert(out@ =~= ip6_text(w@));
    out
}

/// The two ports at `at`, where the packet holds them and the protocol has them.
fn ports(pkt: &[u8], proto: u8, at: usize) -> (r: (u16, u16))
    requires
        at <= usize::MAX - 4,
    ensures
        r.0 == flow_with_ports(pkt@, Seq::empty(), Seq::empty(), proto, at as int).sport,
        r.1 == flow_with_ports(pkt@, Seq::empty(), Seq::empty(), proto, at as int).dport,
{
    if (proto == 6 || proto == 17) && pkt.len() >= at + 4 {
        (
            pkt[at] as u16 * 256 + pkt[at + 1] as u16,
            pkt[at + 2] as u16 * 256 + pkt[at + 3] as u16,
        )
    } else {
        (0, 0)
    }
}

/// Parse the outer header of an IP packet and return the flow.
///
/// Returns `None` for malformed/unsupported packets.
pub fn parse(pkt: &[u8]) -> (r: Option<Flow>)
    ensures
        match r {
            Some(flow) => parsed(pkt@) == Some(flow@),
            None => parsed(pkt@) is None,
        },
{
    if pkt.is_empty() {
        return None;
    }
    let version: u8 = pkt[0] / 16;
    if version == 4 {
        parse_v4(pkt)
    } else if version == 6 {
        parse_v6(pkt)
    } else {
        None
    }
}

/// Parse an IPv4 packet.
pub fn parse_v4(pkt: &[u8]) -> (r: Option<Flow>)
    ensures
        match r {
            Some(flow) => parsed_v4(pkt@) == Some(flow@),
            None => parsed_v4(pkt@) is None,
        },
{
    if pkt.len() < 20 {
        return None;
    }
    let ihl: usize = (pkt[0] % 16) as usize * 4;
    if ihl < 20 || pkt.len() < ihl {
        return None;
    }
    let proto: u8 = pkt[9];
    let mut src = String::new();
    push_dotted(&mut src, pkt[12], pkt[13], pkt[14], pkt[15]);
    let mut dst = String::new();
    push_dotted(&mut dst, pkt[16], pkt[17], pkt[18], pkt[19]);
    let (sport, dport) = ports(pkt, proto, ihl);
    assert(src@ =~= dotted(pkt@[12], pkt@[13], pkt@[14], pkt@[15]));
    assert(dst@ =~= dotted(pkt@[16], pkt@[17], pkt@[18], pkt@[19]));
    Some(Flow { src, dst, proto, sport, dport })
}

/// Parse an IPv6 packet: tolerant, it resolves the transport header after a short
/// walk over extension headers.
pub fn parse_v6(pkt: &[u8]) -> (r: Option<Flow>)
    ensures
        match r {
            Some(flow) => parsed_v6(pkt@) == Some(flow@),
            None => parsed_v6(pkt@) is None,
        },
{
    if pkt.len() < 40 {
        return None;
    }
    let src = ip6(vstd::slice::slice_subrange(pkt, 8, 24));
    let dst = ip6(vstd::slice::slice_subrange(pkt, 24, 40));
    assert(hextets_at(pkt@.subrange(8, 24), 0) =~= hextets_at(pkt@, 8));
    assert(hextets_at(pkt@.subrange(24, 40), 0) =~= hextets_at(pkt@, 24));
    let mut next: u8 = pkt[6];
    let mut at: usize = 40;
    let mut left: usize = MAX_EXTENSIONS;
    while left > 0 && (next == 0 || next == 43 || next == 60 || next == 135)
        invariant
            left <= MAX_EXTENSIONS,
            40 <= at <= 40 + 2048 * (MAX_EXTENSIONS - left),
            after_extensions(pkt@, pkt@[6], 40, MAX_EXTENSIONS as nat) == after_extensions(
                pkt@,
                next,
                at as int,
                left as nat,
            ),
        decreases left,
    {
        if pkt.len() < at + 2 {
            return None;
        }
        let ext_len: usize = (pkt[at + 1] as usize + 1) * 8;
        next = pkt[at];
        at = at + ext_len;
        left = left - 1;
    }
    let (sport, dport) = ports(pkt, next, at);
    Some(Flow { src, dst, proto: next, sport, dport })
}


// ---------------------------------------------------------------------------
// Laws
// ---------------------------------------------------------------------------

/// Writing the word `x` over a zero word at an even place adds `x` to the sum.
proof fn lemma_word_sum_patched(d: Seq<u8>, at: int, x: u16)
    requires
        0 <= at,
        at % 2 == 0,
        at + 2 <= d.len(),
    ensures
        word_sum(patched(d, at, be_bytes(x))) == word_sum(patched(d, at, seq![0u8, 0u8])) + x,
    decreases d.len(),
{
    let with = patched(d, at, be_bytes(x));
    let blank = patched(d, at, seq![0u8, 0u8]);
    if at == 0 {
        assert(with.skip(2) =~= blank.skip(2));
        assert(word(with[0], with[1]) == x);
        assert(word(blank[0], blank[1]) == 0);
    } else {
        lemma_word_sum_patched(d.skip(2), at - 2, x);
        assert(with.skip(2) =~= patched(d.skip(2), at - 2, be_bytes(x)));
        assert(blank.skip(2) =~= patched(d.skip(2), at - 2, seq![0u8, 0u8]));
    }
}

/// A sum and the complement of what it folds to fold to all ones; where the complement is
/// zero, so does the sum with all ones.
proof fn lemma_complement_sums_to_ones(n: nat)
    ensures
        ones_complement((n + (0xffff - ones_complement(n))) as nat) == 0xffff,
        ones_complement(n) == 0xffff ==> ones_complement((n + 0xffff) as nat) == 0xffff,
{
}

/// Bytes that hold their own checksum, or all ones where that is zero, have the checksum
/// zero.
proof fn lemma_held_checksum(d: Seq<u8>, at: int, x: u16)
    requires
        0 <= at,
        at % 2 == 0,
        at + 2 <= d.len(),
        x == internet_checksum(patched(d, at, seq![0u8, 0u8])) || (internet_checksum(
            patched(d, at, seq![0u8, 0u8]),
        ) == 0 && x == 0xffff),
    ensures
        internet_checksum(patched(d, at, be_bytes(x))) == 0,
{
    let blank = patched(d, at, seq![0u8, 0u8]);
    lemma_word_sum_patched(d, at, x);
    lemma_ones_complement_add(word_sum(blank), 0);
    lemma_complement_sums_to_ones(word_sum(blank));
}

/// The Internet checksum of bytes that hold their own checksum, computed while its
/// field was zero, is zero.
pub proof fn law_checksum_validates(d: Seq<u8>, at: int)
    requires
        0 <= at,
        at % 2 == 0,
        at + 2 <= d.len(),
    ensures
        internet_checksum(
            patched(d, at, be_bytes(internet_checksum(patched(d, at, seq![0u8, 0u8])))),
        ) == 0,
{
    lemma_held_checksum(d, at, internet_checksum(patched(d, at, seq![0u8, 0u8])));
}

/// A rewritten packet differs from the packet only in the address, the header checksum
/// and the checksum field of its TCP segment or UDP datagram, and holds the new address.
pub proof fn law_rewrite_changes(pkt: Seq<u8>, at: int, ip: Seq<u8>)
    requires
        rewritable(pkt),
        header_len(pkt) >= 20,
        at == SOURCE_AT || at == DEST_AT,
        ip.len() == 4,
    ensures
        readdressed(pkt, at, ip).len() == pkt.len(),
        readdressed(pkt, at, ip).subrange(at, at + 4) == ip,
        forall|i: int|
            0 <= i < pkt.len() && !(at <= i < at + 4) && !(10 <= i < 12) && !(has_segment_checksum(pkt)
                && header_len(pkt) + checksum_offset(pkt[9]) <= i < header_len(pkt)
                + checksum_offset(pkt[9]) + 2) ==> #[trigger] readdressed(
                pkt,
                at,
                ip,
            )[i] == pkt[i],
{
    let out = readdressed(pkt, at, ip);
    let headed = with_header_checksum(patched(pkt, at, ip));
    assert(headed[0] == pkt[0] && headed[9] == pkt[9]);
    assert(out.subrange(at, at + 4) =~= ip);
}

/// The header checksum of a rewritten packet is right: it is the checksum of the
/// header with that field zero, and the whole header's checksum is zero.
pub proof fn law_rewrite_header_checksum(pkt: Seq<u8>, at: int, ip: Seq<u8>)
    requires
        rewritable(pkt),
        header_len(pkt) >= 20,
        at == SOURCE_AT || at == DEST_AT,
        ip.len() == 4,
    ensures
        ({
            let out = readdressed(pkt, at, ip);
            let header = out.take(header_len(pkt));
            &&& word_at(out, 10) == internet_checksum(patched(header, 10, seq![0u8, 0u8]))
            &&& internet_checksum(header) == 0
        }),
{
    let out = readdressed(pkt, at, ip);
    let n = header_len(pkt);
    let moved = patched(pkt, at, ip);
    let blank = patched(moved, 10, seq![0u8, 0u8]);
    let headed = with_header_checksum(moved);
    let header = out.take(n);
    assert(headed[0] == pkt[0] && headed[9] == pkt[9] && moved[0] == pkt[0]);
    assert(patched(header, 10, seq![0u8, 0u8]) =~= blank.take(n));
    let c = internet_checksum(blank.take(n));
    assert(header =~= patched(header, 10, be_bytes(c)));
    law_checksum_validates(header, 10);
}

/// A UDP datagram's payload comes through a rewrite as it was, also where the datagram
/// holds only its header.
pub proof fn law_rewrite_keeps_payload(pkt: Seq<u8>, at: int, ip: Seq<u8>)
    requires
        rewritable(pkt),
        header_len(pkt) >= 20,
        pkt[9] == 17,
        pkt.len() >= header_len(pkt) + 8,
        at == SOURCE_AT || at == DEST_AT,
        ip.len() == 4,
    ensures
        readdressed(pkt, at, ip).skip(header_len(pkt) + 8) == pkt.skip(header_len(pkt) + 8),
{
    law_rewrite_changes(pkt, at, ip);
    let n = header_len(pkt) + 8;
    let out = readdressed(pkt, at, ip);
    assert forall|i: int| 0 <= i < pkt.len() - n implies out.skip(n)[i] == pkt.skip(n)[i] by {
        assert(out[n + i] == pkt[n + i]);
    }
    assert(out.skip(n) =~= pkt.skip(n));
}

/// The TCP or UDP checksum of a rewritten packet is right: its field holds the checksum
/// by the packet's own addresses, for UDP never zero, and a receiver's checksum of the
/// pseudo-header and the segment is zero.
pub proof fn law_rewrite_segment_checksum(pkt: Seq<u8>, at: int, ip: Seq<u8>)
    requires
        rewritable(pkt),
        header_len(pkt) >= 20,
        has_segment_checksum(pkt),
        at == SOURCE_AT || at == DEST_AT,
        ip.len() == 4,
    ensures
        ({
            let out = readdressed(pkt, at, ip);
            let segment = out.skip(header_len(pkt));
            &&& word_at(out, header_len(pkt) + checksum_offset(pkt[9])) == own_segment_checksum(out)
            &&& pkt[9] == 17 ==> own_segment_checksum(out) != 0
            &&& internet_checksum(
                pseudo_header(out.subrange(12, 16), out.subrange(16, 20), out[9], segment.len())
                    + segment,
            ) == 0
        }),
{
    let out = readdressed(pkt, at, ip);
    let n = header_len(pkt);
    let moved = patched(pkt, at, ip);
    let headed = with_header_checksum(moved);
    assert(headed[0] == pkt[0] && headed[9] == pkt[9]);
    assert(has_segment_checksum(headed));
    let c = own_segment_checksum(headed);
    let field = checksum_offset(pkt[9]);
    assert(out == patched(headed, n + field, be_bytes(c)));
    assert(out.subrange(12, 16) =~= headed.subrange(12, 16));
    assert(out.subrange(16, 20) =~= headed.subrange(16, 20));
    let segment = out.skip(n);
    let hole = with_hole(segment, Some(field as usize));
    assert(hole =~= with_hole(headed.skip(n), Some(field as usize)));
    let ph = pseudo_header(out.subrange(12, 16), out.subrange(16, 20), out[9], segment.len());
    assert(ph.len() == 12);
    let whole = ph + segment;
    assert(patched(whole, 12 + field, seq![0u8, 0u8]) =~= ph + hole);
    assert(whole =~= patched(whole, 12 + field, be_bytes(c)));
    lemma_held_checksum(whole, 12 + field, c);
}

/// Rewriting an address keeps everything else that identifies the flow, and the
/// rewritten packet parses to the flow with the new address.
pub proof fn law_rewrite_keeps_flow(pkt: Seq<u8>, ip: Ipv4Addr)
    requires
        pkt.len() > 0,
        version(pkt) == 4,
        parsed(pkt) is Some,
    ensures
        rewritable(pkt),
        parsed(readdressed(pkt, SOURCE_AT as int, ip@)) == Some(
            FlowView { src: ip.dotted(), ..parsed(pkt).unwrap() },
        ),
        parsed(readdressed(pkt, DEST_AT as int, ip@)) == Some(
            FlowView { dst: ip.dotted(), ..parsed(pkt).unwrap() },
        ),
{
    law_rewrite_changes(pkt, 12, ip@);
    law_rewrite_changes(pkt, 16, ip@);
    let s = readdressed(pkt, 12, ip@);
    let d = readdressed(pkt, 16, ip@);
    assert(s[0] == pkt[0] && s[9] == pkt[9] && d[0] == pkt[0] && d[9] == pkt[9]);
    assert(s[12] == s.subrange(12, 16)[0] && s[13] == s.subrange(12, 16)[1] && s[14]
        == s.subrange(12, 16)[2] && s[15] == s.subrange(12, 16)[3]);
    assert(d[16] == d.subrange(16, 20)[0] && d[17] == d.subrange(16, 20)[1] && d[18]
        == d.subrange(16, 20)[2] && d[19] == d.subrange(16, 20)[3]);
    let n = header_len(pkt);
    if is_tcp_or_udp(pkt[9]) && pkt.len() >= n + 4 {
        assert(s[n] == pkt[n] && s[n + 1] == pkt[n + 1] && s[n + 2] == pkt[n + 2] && s[n + 3]
            == pkt[n + 3]);
        assert(d[n] == pkt[n] && d[n + 1] == pkt[n + 1] && d[n + 2] == pkt[n + 2] && d[n + 3]
            == pkt[n + 3]);
    }
}

/// No packet shorter than an IPv4 header has a flow.
pub proof fn law_short_packets_have_no_flow(pkt: Seq<u8>)
    requires
        pkt.len() < 20,
    ensures
        parsed(pkt) is None,
{
}

/// The run of zero hextets that is left out is the longest, and the first of that length.
pub proof fn law_longest_run(w: Seq<u16>, from: int, j: int)
    requires
        0 <= from <= j <= w.len(),
    ensures
        from <= longest_run(w, from) <= w.len(),
        zero_run(w, j) <= zero_run(w, longest_run(w, from)),
        j < longest_run(w, from) ==> zero_run(w, j) < zero_run(w, longest_run(w, from)),
    decreases w.len() - from,
{
    if from < w.len() {
        if j > from {
            law_longest_run(w, from + 1, j);
        } else {
            law_longest_run(w, from + 1, from + 1);
        }
    }
}

/// Whether `s` holds no colon, dash or slash.
spec fn plain(s: Seq<char>) -> bool {
    forall|i: int|
        0 <= i < s.len() ==> #[trigger] s[i] != ':' && s[i] != '-' && s[i] != '/'
}

/// Whether `s` holds no dash.
pub open spec fn dashless(s: Seq<char>) -> bool {
    forall|i: int| 0 <= i < s.len() ==> #[trigger] s[i] != '-'
}

/// A numeral holds digits only.
proof fn lemma_numeral_plain(n: nat, base: nat)
    requires
        base == 10 || base == 16,
    ensures
        plain(numeral(n, base)),
        numeral(n, base).len() > 0,
{
    lemma_numeral_reads_back(n, base);
}

/// The dotted form of an address holds digits and dots only.
proof fn lemma_dotted_plain(ip: Ipv4Addr)
    ensures
        plain(ip.dotted()),
{
    lemma_numeral_plain(ip.a as nat, 10);
    lemma_numeral_plain(ip.b as nat, 10);
    lemma_numeral_plain(ip.c as nat, 10);
    lemma_numeral_plain(ip.d as nat, 10);
}

/// The text of an IPv6 address is no dotted IPv4 address.
pub proof fn law_ip6_text_is_not_dotted(w: Seq<u16>, ip: Ipv4Addr)
    requires
        w.len() == 8,
    ensures
        ip6_text(w) != ip.dotted(),
{
    let text = ip6_text(w);
    let start = longest_run(w, 0);
    let end = start + zero_run(w, start);
    if end - start < 2 {
        let i = joined(w.drop_last()).len() as int;
        assert(text[i] == ':');
        if text == ip.dotted() {
            lemma_dotted_plain(ip);
        }
    } else {
        let i = joined(w.take(start)).len() as int;
        assert(text[i] == ':');
        if text == ip.dotted() {
            lemma_dotted_plain(ip);
        }
    }
}

/// Texts are split in one way at the first `c`.
proof fn lemma_split_at(a: Seq<char>, x: Seq<char>, b: Seq<char>, y: Seq<char>, c: char)
    requires
        a + seq![c] + x == b + seq![c] + y,
        forall|i: int| 0 <= i < a.len() ==> #[trigger] a[i] != c,
        forall|i: int| 0 <= i < b.len() ==> #[trigger] b[i] != c,
    ensures
        a == b,
        x == y,
{
    let s = a + seq![c] + x;
    let t = b + seq![c] + y;
    assert(s[a.len() as int] == c && t[b.len() as int] == c);
    if a.len() < b.len() {
        assert(t[a.len() as int] == b[a.len() as int]);
    } else if b.len() < a.len() {
        assert(s[b.len() as int] == a[b.len() as int]);
    }
    assert(a.len() == b.len());
    assert(a =~= b) by {
        assert forall|i: int| 0 <= i < a.len() implies a[i] == b[i] by {
            assert(s[i] == a[i] && t[i] == b[i]);
        }
    }
    assert(x =~= y) by {
        assert(x.len() == s.len() - a.len() - 1 && y.len() == t.len() - b.len() - 1);
        assert forall|i: int| 0 <= i < x.len() implies x[i] == y[i] by {
            assert(s[a.len() + 1 + i] == x[i] && t[a.len() + 1 + i] == y[i]);
        }
    }
}

/// Texts are split in one way at the last `c`.
proof fn lemma_split_last(a: Seq<char>, x: Seq<char>, b: Seq<char>, y: Seq<char>, c: char)
    requires
        a + seq![c] + x == b + seq![c] + y,
        forall|i: int| 0 <= i < x.len() ==> #[trigger] x[i] != c,
        forall|i: int| 0 <= i < y.len() ==> #[trigger] y[i] != c,
    ensures
        a == b,
        x == y,
{
    let s = a + seq![c] + x;
    let t = b + seq![c] + y;
    assert(s[a.len() as int] == c && t[b.len() as int] == c);
    assert(s.len() == a.len() + 1 + x.len() && t.len() == b.len() + 1 + y.len());
    assert(s.len() == t.len());
    if a.len() < b.len() {
        assert(s[b.len() as int] == x[b.len() - a.len() - 1]);
    } else if b.len() < a.len() {
        assert(t[a.len() as int] == y[a.len() - b.len() - 1]);
    }
    assert(a.len() == b.len());
    assert(a =~= b) by {
        assert forall|i: int| 0 <= i < a.len() implies a[i] == b[i] by {
            assert(s[i] == a[i] && t[i] == b[i]);
        }
    }
    assert(x =~= y) by {
        assert forall|i: int| 0 <= i < x.len() implies x[i] == y[i] by {
            assert(s[a.len() + 1 + i] == x[i] && t[a.len() + 1 + i] == y[i]);
        }
    }
}

/// What stands behind the last colon of a key gives the port and the protocol.
proof fn lemma_key_tail(f: FlowView, g: FlowView)
    requires
        numeral(f.dport as nat, 10) + f.proto_suffix() == numeral(g.dport as nat, 10)
            + g.proto_suffix(),
    ensures
        f.dport == g.dport,
        f.proto == g.proto,
{
    let (fd, gd) = (numeral(f.dport as nat, 10), numeral(g.dport as nat, 10));
    let (fp, gp) = (numeral(f.proto as nat, 10), numeral(g.proto as nat, 10));
    lemma_numeral_plain(f.dport as nat, 10);
    lemma_numeral_plain(g.dport as nat, 10);
    lemma_numeral_reads_back(f.dport as nat, 10);
    lemma_numeral_reads_back(g.dport as nat, 10);
    lemma_numeral_reads_back(f.proto as nat, 10);
    lemma_numeral_reads_back(g.proto as nat, 10);
    if f.proto == 6 && g.proto == 6 {
        assert(fd + f.proto_suffix() =~= fd);
        assert(gd + g.proto_suffix() =~= gd);
    } else if f.proto == 6 {
        assert(fd + f.proto_suffix() =~= fd);
        assert((gd + g.proto_suffix())[gd.len() as int] == '/');
        assert(fd[gd.len() as int] != '/');
    } else if g.proto == 6 {
        assert(gd + g.proto_suffix() =~= gd);
        assert((fd + f.proto_suffix())[fd.len() as int] == '/');
        assert(gd[fd.len() as int] != '/');
    } else {
        assert(fd + f.proto_suffix() =~= fd + seq!['/'] + fp);
        assert(gd + g.proto_suffix() =~= gd + seq!['/'] + gp);
        lemma_split_at(fd, fp, gd, gp, '/');
    }
}

/// A key stands for one 5-tuple: flows that share it have the same addresses, protocol
/// and ports. (The source addresses may hold no dash, which no address does.)
pub proof fn law_key_identifies_flow(f: FlowView, g: FlowView)
    requires
        dashless(f.src),
        dashless(g.src),
        f.key() == g.key(),
    ensures
        f.src == g.src,
        f.dst == g.dst,
        f.proto == g.proto,
        f.sport == g.sport,
        f.dport == g.dport,
{
    let fs = numeral(f.sport as nat, 10);
    let gs = numeral(g.sport as nat, 10);
    let ft = numeral(f.dport as nat, 10) + f.proto_suffix();
    let gt = numeral(g.dport as nat, 10) + g.proto_suffix();
    lemma_numeral_plain(f.sport as nat, 10);
    lemma_numeral_plain(g.sport as nat, 10);
    lemma_numeral_plain(f.dport as nat, 10);
    lemma_numeral_plain(g.dport as nat, 10);
    lemma_numeral_plain(f.proto as nat, 10);
    lemma_numeral_plain(g.proto as nat, 10);
    lemma_numeral_reads_back(f.sport as nat, 10);
    lemma_numeral_reads_back(g.sport as nat, 10);
    let (f1, g1) = (f.src + seq![':'] + fs, g.src + seq![':'] + gs);
    let (f2, g2) = (f.dst + seq![':'] + ft, g.dst + seq![':'] + gt);
    assert(f.key() =~= f1 + seq!['-'] + (seq!['>'] + f2));
    assert(g.key() =~= g1 + seq!['-'] + (seq!['>'] + g2));
    lemma_split_at(f1, seq!['>'] + f2, g1, seq!['>'] + g2, '-');
    assert(f2 =~= (seq!['>'] + f2).skip(1));
    assert(g2 =~= (seq!['>'] + g2).skip(1));
    lemma_split_last(f.src, fs, g.src, gs, ':');
    lemma_split_last(f.dst, ft, g.dst, gt, ':');
    lemma_key_tail(f, g);
}

/// Joined hextets have no two colons side by side and none at either end.
proof fn lemma_joined_shape(w: Seq<u16>)
    ensures
        joined(w).len() == 0 <==> w.len() == 0,
        w.len() > 0 ==> joined(w)[0] != ':' && joined(w).last() != ':',
        dashless(joined(w)),
        forall|i: int|
            0 <= i < joined(w).len() - 1 ==> !(#[trigger] joined(w)[i] == ':' && joined(w)[i + 1]
                == ':'),
    decreases w.len(),
{
    if w.len() == 1 {
        lemma_numeral_plain(w[0] as nat, 16);
    } else if w.len() > 1 {
        let head = joined(w.drop_last());
        let last = numeral(w.last() as nat, 16);
        lemma_joined_shape(w.drop_last());
        lemma_numeral_plain(w.last() as nat, 16);
        let s = joined(w);
        assert(s =~= head + seq![':'] + last);
        assert forall|i: int| 0 <= i < s.len() - 1 implies !(#[trigger] s[i] == ':' && s[i + 1]
            == ':') by {
            if i + 1 < head.len() {
                assert(s[i] == head[i] && s[i + 1] == head[i + 1]);
            } else if i + 1 == head.len() {
                assert(s[i] == head.last());
            } else {
                assert(s[i + 1] == last[i - head.len()]);
            }
        }
    }
}

/// Hextets can be told from their joined form.
proof fn lemma_joined_injective(a: Seq<u16>, b: Seq<u16>)
    requires
        joined(a) == joined(b),
    ensures
        a == b,
    decreases a.len(),
{
    lemma_joined_shape(a);
    lemma_joined_shape(b);
    if a.len() == 0 {
        assert(a =~= b);
    } else {
        let (x, y) = (numeral(a.last() as nat, 16), numeral(b.last() as nat, 16));
        lemma_numeral_plain(a.last() as nat, 16);
        lemma_numeral_plain(b.last() as nat, 16);
        lemma_numeral_reads_back(a.last() as nat, 16);
        lemma_numeral_reads_back(b.last() as nat, 16);
        let (p, q) = (joined(a.drop_last()), joined(b.drop_last()));
        if a.len() == 1 && b.len() == 1 {
            assert(a =~= b);
        } else if a.len() == 1 {
            assert((q + seq![':'] + y)[q.len() as int] == ':');
            assert(x[q.len() as int] != ':');
        } else if b.len() == 1 {
            assert((p + seq![':'] + x)[p.len() as int] == ':');
            assert(y[p.len() as int] != ':');
        } else {
            lemma_split_last(p, x, q, y, ':');
            lemma_joined_injective(a.drop_last(), b.drop_last());
            assert(a =~= a.drop_last().push(a.last()));
            assert(b =~= b.drop_last().push(b.last()));
        }
    }
}

proof fn lemma_zero_run(w: Seq<u16>, i: int)
    requires
        0 <= i <= w.len(),
    ensures
        0 <= zero_run(w, i) <= w.len() - i,
        forall|k: int| i <= k < i + zero_run(w, i) ==> #[trigger] w[k] == 0,
    decreases w.len() - i,
{
    if i < w.len() {
        lemma_zero_run(w, i + 1);
    }
}

/// Texts are split in one way at the first two colons side by side.
proof fn lemma_split_double(a: Seq<char>, x: Seq<char>, v: Seq<u16>, b: Seq<char>, y: Seq<char>, w: Seq<u16>)
    requires
        a == joined(v),
        b == joined(w),
        a + seq![':', ':'] + x == b + seq![':', ':'] + y,
    ensures
        a == b,
        x == y,
{
    lemma_joined_shape(v);
    lemma_joined_shape(w);
    let s = a + seq![':', ':'] + x;
    let t = b + seq![':', ':'] + y;
    assert(s[a.len() as int] == ':' && s[a.len() as int + 1] == ':');
    assert(t[b.len() as int] == ':' && t[b.len() as int + 1] == ':');
    if a.len() < b.len() {
        assert(b[a.len() as int] == ':');
        if a.len() + 1 < b.len() {
            assert(b[a.len() as int + 1] == ':');
        }
    } else if b.len() < a.len() {
        assert(a[b.len() as int] == ':');
        if b.len() + 1 < a.len() {
            assert(a[b.len() as int + 1] == ':');
        }
    }
    assert(a.len() == b.len());
    assert(s.take(a.len() as int) =~= a);
    assert(t.take(b.len() as int) =~= b);
    assert(s.skip(a.len() as int + 2) =~= x);
    assert(t.skip(b.len() as int + 2) =~= y);
}

/// Different IPv6 addresses have different texts, and no text holds a dash.
pub proof fn law_ip6_text_injective(v: Seq<u16>, w: Seq<u16>)
    requires
        v.len() == 8,
        w.len() == 8,
    ensures
        dashless(ip6_text(v)),
        ip6_text(v) == ip6_text(w) ==> v == w,
{
    let (vs, ws) = (longest_run(v, 0), longest_run(w, 0));
    law_longest_run(v, 0, 0);
    law_longest_run(w, 0, 0);
    lemma_zero_run(v, vs);
    lemma_zero_run(w, ws);
    let (ve, we) = (vs + zero_run(v, vs), ws + zero_run(w, ws));
    let (a, b) = (joined(v.take(vs)), joined(w.take(ws)));
    let (x, y) = (joined(v.skip(ve)), joined(w.skip(we)));
    lemma_joined_shape(v);
    lemma_joined_shape(w);
    lemma_joined_shape(v.take(vs));
    lemma_joined_shape(v.skip(ve));
    if ip6_text(v) == ip6_text(w) {
        let s = ip6_text(v);
        if ve - vs < 2 && we - ws < 2 {
            lemma_joined_injective(v, w);
        } else if ve - vs < 2 {
            assert(s[b.len() as int] == ':' && s[b.len() as int + 1] == ':');
        } else if we - ws < 2 {
            assert(s[a.len() as int] == ':' && s[a.len() as int + 1] == ':');
        } else {
            lemma_split_double(a, x, v.take(vs), b, y, w.take(ws));
            lemma_joined_injective(v.take(vs), w.take(ws));
            lemma_joined_injective(v.skip(ve), w.skip(we));
            assert(v.take(vs).len() == vs && w.take(ws).len() == ws);
            assert(v.skip(ve).len() == 8 - ve && w.skip(we).len() == 8 - we);
            assert forall|i: int| 0 <= i < 8 implies v[i] == w[i] by {
                if i < vs {
                    assert(v.take(vs)[i] == w.take(ws)[i]);
                } else if i >= ve {
                    assert(v.skip(ve)[i - ve] == w.skip(we)[i - we]);
                }
            }
            assert(v =~= w);
        }
    }
}

/// Packets share a key only where they belong to one flow: they are of one IP version and
/// have the same addresses, protocol and ports.
pub proof fn law_packets_share_key_by_flow(p: Seq<u8>, q: Seq<u8>)
    requires
        parsed(p) is Some,
        parsed(q) is Some,
        parsed(p)->0.key() == parsed(q)->0.key(),
    ensures
        parsed(p) == parsed(q),
        version(p) == version(q),
        version(p) == 4 ==> p.subrange(12, 20) == q.subrange(12, 20),
        version(p) == 6 ==> p.subrange(8, 40) == q.subrange(8, 40),
{
    let (f, g) = (parsed(p)->0, parsed(q)->0);
    lemma_source_text(p);
    lemma_source_text(q);
    law_key_identifies_flow(f, g);
    if version(p) == 4 && version(q) == 4 {
        lemma_same_v4_addresses(p, q);
    } else if version(p) == 6 && version(q) == 6 {
        lemma_same_v6_address(p, q, 8);
        lemma_same_v6_address(p, q, 24);
        assert forall|i: int| 0 <= i < 32 implies p.subrange(8, 40)[i] == q.subrange(8, 40)[i] by {
            if i < 16 {
                assert(p.subrange(8, 24)[i] == q.subrange(8, 24)[i]);
            } else {
                assert(p.subrange(24, 40)[i - 16] == q.subrange(24, 40)[i - 16]);
            }
        }
        assert(p.subrange(8, 40) =~= q.subrange(8, 40));
    } else if version(p) == 4 {
        let ip = Ipv4Addr { a: p[12], b: p[13], c: p[14], d: p[15] };
        law_ip6_text_is_not_dotted(hextets_at(q, 8), ip);
    } else {
        let ip = Ipv4Addr { a: q[12], b: q[13], c: q[14], d: q[15] };
        law_ip6_text_is_not_dotted(hextets_at(p, 8), ip);
    }
}

proof fn lemma_source_text(p: Seq<u8>)
    requires
        parsed(p) is Some,
    ensures
        dashless(parsed(p)->0.src),
{
    if version(p) == 4 {
        lemma_dotted_plain(Ipv4Addr { a: p[12], b: p[13], c: p[14], d: p[15] });
    } else {
        law_ip6_text_injective(hextets_at(p, 8), hextets_at(p, 8));
    }
}

proof fn lemma_same_v4_addresses(p: Seq<u8>, q: Seq<u8>)
    requires
        p.len() >= 20,
        q.len() >= 20,
        dotted(p[12], p[13], p[14], p[15]) == dotted(q[12], q[13], q[14], q[15]),
        dotted(p[16], p[17], p[18], p[19]) == dotted(q[16], q[17], q[18], q[19]),
    ensures
        p.subrange(12, 20) == q.subrange(12, 20),
{
    law_dotted_injective(
        Ipv4Addr { a: p[12], b: p[13], c: p[14], d: p[15] },
        Ipv4Addr { a: q[12], b: q[13], c: q[14], d: q[15] },
    );
    law_dotted_injective(
        Ipv4Addr { a: p[16], b: p[17], c: p[18], d: p[19] },
        Ipv4Addr { a: q[16], b: q[17], c: q[18], d: q[19] },
    );
    assert(p.subrange(12, 20) =~= q.subrange(12, 20));
}

proof fn lemma_same_v6_address(p: Seq<u8>, q: Seq<u8>, at: int)
    requires
        0 <= at,
        p.len() >= at + 16,
        q.len() >= at + 16,
        ip6_text(hextets_at(p, at)) == ip6_text(hextets_at(q, at)),
    ensures
        p.subrange(at, at + 16) == q.subrange(at, at + 16),
{
    let (v, w) = (hextets_at(p, at), hextets_at(q, at));
    law_ip6_text_injective(v, w);
    let (a, b) = (p.subrange(at, at + 16), q.subrange(at, at + 16));
    assert forall|i: int| 0 <= i < 16 implies #[trigger] a[i] == b[i] by {
        let k = i / 2;
        assert(v[k] == w[k]);
        assert(word_at(p, at + 2 * k) == word_at(q, at + 2 * k));
    }
    assert(a =~= b);
}

/// The checksum of a 16-bit word is its complement, that of no bytes is all ones, and a
/// single byte counts as the high byte of a word.
pub proof fn law_checksum_of_word(hi: u8, lo: u8)
    ensures
        internet_checksum(Seq::<u8>::empty()) == 0xffff,
        internet_checksum(seq![hi, lo]) == 0xffff - (hi * 256 + lo),
        internet_checksum(seq![hi]) == internet_checksum(seq![hi, 0u8]),
{
    let two = seq![hi, lo];
    let padded = seq![hi, 0u8];
    assert(two.skip(2) =~= Seq::<u8>::empty());
    assert(padded.skip(2) =~= Seq::<u8>::empty());
    assert(word_sum(Seq::<u8>::empty()) == 0);
    assert(word_sum(two) == hi * 256 + lo);
    assert(word_sum(padded) == hi * 256);
    assert(word_sum(seq![hi]) == hi * 256);
}

/// Checksums of pieces combine: the complements of the checksums of `a`, of even length,
/// and of `b` add up to that of both, a carry out of 16 bits being added back in.
pub proof fn law_checksum_of_pieces(a: Seq<u8>, b: Seq<u8>)
    requires
        a.len() % 2 == 0,
    ensures
        ({
            let sum = (0xffff - internet_checksum(a)) + (0xffff - internet_checksum(b));
            0xffff - internet_checksum(a + b) == if sum > 0xffff {
                sum - 0xffff
            } else {
                sum
            }
        }),
{
    lemma_word_sum_concat(a, b);
    lemma_ones_complement_add(word_sum(a), word_sum(b));
    lemma_ones_complement_add(word_sum(b), ones_complement(word_sum(a)));
    lemma_ones_complement_add(word_sum(b), 0);
}

/// The pseudo-header of a segment of `len` bytes, byte by byte.
proof fn lemma_pseudo_header(src: Seq<u8>, dst: Seq<u8>, proto: u8, len: nat)
    ensures
        pseudo_header(src, dst, proto, len) == src + dst + seq![
            0u8,
            proto,
            (len / 256 % 256) as u8,
            (len % 256) as u8,
        ],
{
    let low = len % 0x10000;
    assert(low / 256 == len / 256 % 256);
    assert(low % 256 == len % 256);
    assert(pseudo_header(src, dst, proto, len) =~= src + dst + seq![
        0u8,
        proto,
        (len / 256 % 256) as u8,
        (len % 256) as u8,
    ]);
}

/// A segment that holds the transport checksum at offset 16 is accepted by its receiver:
/// the checksum of the addresses, a zero byte, the protocol, the length and the segment is
/// zero. What the field held before makes no difference.
pub proof fn law_transport_checksum_is_accepted(
    src: Seq<u8>,
    dst: Seq<u8>,
    proto: u8,
    l4: Seq<u8>,
    hi: u8,
    lo: u8,
)
    requires
        src.len() == 4,
        dst.len() == 4,
        l4.len() >= 18,
    ensures
        ({
            let c = segment_checksum(src, dst, proto, l4);
            let header = src + dst + seq![
                0u8,
                proto,
                (l4.len() / 256 % 256) as u8,
                (l4.len() % 256) as u8,
            ];
            &&& internet_checksum(
                header + l4.update(16, (c / 256) as u8).update(17, (c % 256) as u8),
            ) == 0
            &&& segment_checksum(src, dst, proto, l4.update(16, hi).update(17, lo)) == c
        }),
{
    let c = segment_checksum(src, dst, proto, l4);
    let header = src + dst + seq![
        0u8,
        proto,
        (l4.len() / 256 % 256) as u8,
        (l4.len() % 256) as u8,
    ];
    lemma_pseudo_header(src, dst, proto, l4.len());
    let hole = with_hole(l4, Some(TCP_CHECKSUM_AT));
    assert(with_hole(l4.update(16, hi).update(17, lo), Some(TCP_CHECKSUM_AT)) =~= hole);
    let whole = header + l4;
    assert(patched(whole, 28, seq![0u8, 0u8]) =~= header + hole);
    lemma_held_checksum(whole, 28, c);
    assert(patched(whole, 28, be_bytes(c)) =~= header + l4.update(16, (c / 256) as u8).update(
        17,
        (c % 256) as u8,
    ));
}

/// The transport checksum of a segment that ends before the field is that of the
/// addresses, a zero byte, the protocol, the length and the segment.
pub proof fn law_transport_checksum_of_short_segment(
    src: Seq<u8>,
    dst: Seq<u8>,
    proto: u8,
    l4: Seq<u8>,
)
    requires
        l4.len() < 18,
    ensures
        segment_checksum(src, dst, proto, l4) == internet_checksum(
            src + dst + seq![
                0u8,
                proto,
                (l4.len() / 256 % 256) as u8,
                (l4.len() % 256) as u8,
            ] + l4,
        ),
{
    lemma_pseudo_header(src, dst, proto, l4.len());
}

/// A datagram that holds the UDP checksum at offset 6 is accepted by its receiver, and the
/// field does not say that there is no checksum. What it held before makes no difference.
pub proof fn law_udp_checksum_is_accepted(
    src: Seq<u8>,
    dst: Seq<u8>,
    l4: Seq<u8>,
    hi: u8,
    lo: u8,
)
    requires
        src.len() == 4,
        dst.len() == 4,
        l4.len() >= 8,
    ensures
        ({
            let c = datagram_checksum(src, dst, l4);
            let header = src + dst + seq![
                0u8,
                17u8,
                (l4.len() / 256 % 256) as u8,
                (l4.len() % 256) as u8,
            ];
            &&& c != 0
            &&& internet_checksum(
                header + l4.update(6, (c / 256) as u8).update(7, (c % 256) as u8),
            ) == 0
            &&& datagram_checksum(src, dst, l4.update(6, hi).update(7, lo)) == c
        }),
{
    let c = datagram_checksum(src, dst, l4);
    let header = src + dst + seq![
        0u8,
        17u8,
        (l4.len() / 256 % 256) as u8,
        (l4.len() % 256) as u8,
    ];
    lemma_pseudo_header(src, dst, 17, l4.len());
    let hole = with_hole(l4, Some(UDP_CHECKSUM_AT));
    assert(with_hole(l4.update(6, hi).update(7, lo), Some(UDP_CHECKSUM_AT)) =~= hole);
    let whole = header + l4;
    assert(patched(whole, 18, seq![0u8, 0u8]) =~= header + hole);
    lemma_held_checksum(whole, 18, c);
    assert(patched(whole, 18, be_bytes(c)) =~= header + l4.update(6, (c / 256) as u8).update(
        7,
        (c % 256) as u8,
    ));
}

/// The packets whose addresses can be rewritten are exactly those of version 4 that hold
/// 20 bytes and the header length that they name.
pub proof fn law_what_is_rewritable(pkt: Seq<u8>)
    ensures
        rewritable(pkt) <==> pkt.len() >= 20 && pkt[0] as int / 16 == 4 && pkt.len() >= pkt[0] as int
            % 16 * 4,
{
}

/// A rewritten packet holds the new address and is accepted on its way: the checksum of
/// its header is zero, and that of its TCP segment or UDP datagram with the addresses that
/// it now holds is zero, whatever its flags, options and other header bytes are. A UDP
/// checksum field never says that there is no checksum.
pub proof fn law_rewritten_packet_is_accepted(pkt: Seq<u8>, at: int, ip: Seq<u8>, n: int)
    requires
        pkt.len() >= 20,
        pkt[0] as int / 16 == 4,
        n == pkt[0] as int % 16 * 4,
        20 <= n <= pkt.len(),
        at == 12 || at == 16,
        ip.len() == 4,
    ensures
        ({
            let out = readdressed(pkt, at, ip);
            let len = out.len() - n;
            let addressed = out.subrange(12, 20) + seq![
                0u8,
                pkt[9],
                (len / 256 % 256) as u8,
                (len % 256) as u8,
            ] + out.skip(n);
            &&& out.len() == pkt.len()
            &&& out.subrange(at, at + 4) == ip
            &&& internet_checksum(out.take(n)) == 0
            &&& pkt[9] == 6 && pkt.len() >= n + 18 ==> internet_checksum(addressed) == 0
            &&& pkt[9] == 17 && pkt.len() >= n + 8 ==> internet_checksum(addressed) == 0 && (out[n
                + 6] != 0 || out[n + 7] != 0)
        }),
{
    let out = readdressed(pkt, at, ip);
    let len = (out.len() - n) as nat;
    law_rewrite_changes(pkt, at, ip);
    law_rewrite_header_checksum(pkt, at, ip);
    if (pkt[9] == 6 && pkt.len() >= n + 18) || (pkt[9] == 17 && pkt.len() >= n + 8) {
        assert(has_segment_checksum(pkt));
        law_rewrite_segment_checksum(pkt, at, ip);
        lemma_pseudo_header(out.subrange(12, 16), out.subrange(16, 20), out[9], len);
        assert(out[9] == pkt[9]);
        assert(out.subrange(12, 16) + out.subrange(16, 20) =~= out.subrange(12, 20));
        let addressed = out.subrange(12, 20) + seq![
            0u8,
            pkt[9],
            (len / 256 % 256) as u8,
            (len % 256) as u8,
        ] + out.skip(n);
        assert(addressed =~= pseudo_header(
            out.subrange(12, 16),
            out.subrange(16, 20),
            out[9],
            out.skip(n).len(),
        ) + out.skip(n));
    }
}

/// A rewrite touches nothing but the address, the header checksum (bytes 10 and 11) and
/// the checksum field of a TCP segment (offset 16) or UDP datagram (offset 6) that has it.
pub proof fn law_rewrite_touches_no_more(pkt: Seq<u8>, at: int, ip: Seq<u8>, n: int, i: int)
    requires
        pkt.len() >= 20,
        pkt[0] as int / 16 == 4,
        n == pkt[0] as int % 16 * 4,
        20 <= n <= pkt.len(),
        at == 12 || at == 16,
        ip.len() == 4,
        0 <= i < pkt.len(),
        i < at || i >= at + 4,
        i != 10 && i != 11,
        pkt[9] == 6 && pkt.len() >= n + 18 ==> i != n + 16 && i != n + 17,
        pkt[9] == 17 && pkt.len() >= n + 8 ==> i != n + 6 && i != n + 7,
    ensures
        readdressed(pkt, at, ip)[i] == pkt[i],
{
    law_rewrite_changes(pkt, at, ip);
}

/// Rewriting an address to another and back comes to the same as rewriting it to itself:
/// nothing of the packet is lost on the way.
pub proof fn law_rewrite_and_back(pkt: Seq<u8>, at: int, ip: Seq<u8>)
    requires
        pkt.len() >= 20,
        pkt[0] as int / 16 == 4,
        20 <= pkt[0] as int % 16 * 4 <= pkt.len(),
        at == 12 || at == 16,
        ip.len() == 4,
    ensures
        ({
            let there = readdressed(pkt, at, ip);
            readdressed(there, at, pkt.subrange(at, at + 4)) == readdressed(
                pkt,
                at,
                pkt.subrange(at, at + 4),
            )
        }),
{
    let n = header_len(pkt);
    let own = pkt.subrange(at, at + 4);
    let there = readdressed(pkt, at, ip);
    law_rewrite_changes(pkt, at, ip);
    let (p, q) = (patched(pkt, at, own), patched(there, at, own));
    assert(p =~= pkt);
    assert forall|i: int|
        0 <= i < pkt.len() && i != 10 && i != 11 && !(has_segment_checksum(pkt) && n
            + checksum_offset(pkt[9]) <= i < n + checksum_offset(pkt[9]) + 2) implies q[i] == p[i] by {
        if i < at || i >= at + 4 {
            assert(there[i] == pkt[i]);
        }
    }
    assert(q[0] == p[0] && q[9] == p[9]);
    let (pb, qb) = (patched(p, 10, seq![0u8, 0u8]), patched(q, 10, seq![0u8, 0u8]));
    assert(pb.take(n) =~= qb.take(n));
    let (ph, qh) = (with_header_checksum(p), with_header_checksum(q));
    assert(ph[0] == pkt[0] && qh[0] == pkt[0] && ph[9] == pkt[9] && qh[9] == pkt[9]);
    assert(ph.subrange(12, 16) =~= qh.subrange(12, 16));
    assert(ph.subrange(16, 20) =~= qh.subrange(16, 20));
    if has_segment_checksum(pkt) {
        let field = checksum_offset(pkt[9]) as usize;
        assert(with_hole(ph.skip(n), Some(field)) =~= with_hole(qh.skip(n), Some(field)));
    }
    assert(readdressed(there, at, own) =~= readdressed(pkt, at, own));
}

/// An IPv4 packet has a flow exactly when its header is complete. The flow's addresses are
/// the packet's, its protocol is byte 9, and for TCP and UDP its ports are the big-endian
/// words at the header's end and two bytes on, where the packet holds four bytes there;
/// they are zero otherwise. No other byte of the header matters.
pub proof fn law_v4_flow(pkt: Seq<u8>, n: int)
    requires
        pkt.len() > 0,
        pkt[0] as int / 16 == 4,
        n == pkt[0] as int % 16 * 4,
    ensures
        parsed(pkt) is Some <==> pkt.len() >= 20 && 20 <= n <= pkt.len(),
        parsed(pkt) matches Some(f) ==> {
            &&& f.src == (Ipv4Addr { a: pkt[12], b: pkt[13], c: pkt[14], d: pkt[15] }).dotted()
            &&& f.dst == (Ipv4Addr { a: pkt[16], b: pkt[17], c: pkt[18], d: pkt[19] }).dotted()
            &&& f.proto == pkt[9]
            &&& (pkt[9] == 6 || pkt[9] == 17) && pkt.len() >= n + 4 ==> f.sport == pkt[n] * 256
                + pkt[n + 1] && f.dport == pkt[n + 2] * 256 + pkt[n + 3]
            &&& (pkt[9] != 6 && pkt[9] != 17) || pkt.len() < n + 4 ==> f.sport == 0 && f.dport == 0
        },
{
}

/// Packets that are neither IPv4 nor IPv6 have no flow, and empty ones have none.
pub proof fn law_other_versions_have_no_flow(pkt: Seq<u8>)
    requires
        pkt.len() > 0 ==> pkt[0] as int / 16 != 4 && pkt[0] as int / 16 != 6,
    ensures
        parsed(pkt) is None,
{
}

/// The extension headers `exts`, one behind the other.
pub open spec fn laid_out(exts: Seq<Seq<u8>>) -> Seq<u8>
    decreases exts.len(),
{
    if exts.len() == 0 {
        Seq::empty()
    } else {
        exts[0] + laid_out(exts.skip(1))
    }
}

/// Whether `exts` is a chain of IPv6 extension headers that `first` announces: hop-by-hop
/// options (0), routing (43), destination options (60) and mobility (135), each of a length
/// that its second byte gives in units of eight bytes less one, and each announcing the
/// next in its first byte, the last one `proto`.
pub open spec fn announces(first: u8, exts: Seq<Seq<u8>>, proto: u8) -> bool
    decreases exts.len(),
{
    if exts.len() == 0 {
        first == proto
    } else {
        &&& first == 0 || first == 43 || first == 60 || first == 135
        &&& exts[0].len() >= 2
        &&& exts[0].len() == (exts[0][1] + 1) * 8
        &&& announces(exts[0][0], exts.skip(1), proto)
    }
}

proof fn lemma_after_chain(
    front: Seq<u8>,
    first: u8,
    exts: Seq<Seq<u8>>,
    proto: u8,
    rest: Seq<u8>,
    fuel: nat,
)
    requires
        announces(first, exts, proto),
        exts.len() <= fuel,
    ensures
        after_extensions(front + laid_out(exts) + rest, first, front.len() as int, fuel)
            == after_extensions(
            front + laid_out(exts) + rest,
            proto,
            front.len() + laid_out(exts).len() as int,
            (fuel - exts.len()) as nat,
        ),
    decreases exts.len(),
{
    let pkt = front + laid_out(exts) + rest;
    if exts.len() > 0 {
        let e = exts[0];
        let at = front.len() as int;
        assert(pkt[at] == e[0] && pkt[at + 1] == e[1]);
        lemma_after_chain(front + e, e[0], exts.skip(1), proto, rest, (fuel - 1) as nat);
        assert(front + e + laid_out(exts.skip(1)) + rest =~= pkt);
    }
}

/// An IPv6 packet is parsed through its extension headers, up to eight: its flow has the
/// packet's addresses, the protocol that the last header announces, and for TCP and UDP the
/// big-endian words that follow as its ports, where there are four bytes; zero otherwise.
pub proof fn law_v6_flow(header: Seq<u8>, exts: Seq<Seq<u8>>, proto: u8, rest: Seq<u8>)
    requires
        header.len() == 40,
        header[0] as int / 16 == 6,
        announces(header[6], exts, proto),
        exts.len() <= 8,
        exts.len() < 8 ==> proto != 0 && proto != 43 && proto != 60 && proto != 135,
    ensures
        parsed(header + laid_out(exts) + rest) matches Some(f) && {
            &&& f.src == ip6_text(hextets_at(header, 8))
            &&& f.dst == ip6_text(hextets_at(header, 24))
            &&& f.proto == proto
            &&& (proto == 6 || proto == 17) && rest.len() >= 4 ==> f.sport == rest[0] * 256
                + rest[1] && f.dport == rest[2] * 256 + rest[3]
            &&& (proto != 6 && proto != 17) || rest.len() < 4 ==> f.sport == 0 && f.dport == 0
        },
{
    let pkt = header + laid_out(exts) + rest;
    lemma_after_chain(header, header[6], exts, proto, rest, 8);
    assert(pkt[0] == header[0] && pkt[6] == header[6]);
    assert(hextets_at(pkt, 8) =~= hextets_at(header, 8));
    assert(hextets_at(pkt, 24) =~= hextets_at(header, 24));
    let at = 40 + laid_out(exts).len() as int;
    assert(pkt.len() == at + rest.len());
    if rest.len() >= 4 {
        assert(pkt[at] == rest[0] && pkt[at + 1] == rest[1] && pkt[at + 2] == rest[2] && pkt[at + 3]
            == rest[3]);
    }
}

/// An IPv6 packet that ends in its header, or within the first two bytes of one of its
/// first eight extension headers, has no flow.
pub proof fn law_v6_cut_short_has_no_flow(
    header: Seq<u8>,
    exts: Seq<Seq<u8>>,
    kind: u8,
    rest: Seq<u8>,
)
    requires
        header.len() > 0,
        header[0] as int / 16 == 6,
        header.len() < 40 && exts.len() == 0 && rest.len() == 0 || header.len() == 40 && announces(
            header[6],
            exts,
            kind,
        ) && exts.len() < 8 && (kind == 0 || kind == 43 || kind == 60 || kind == 135) && rest.len()
            < 2,
    ensures
        parsed(header + laid_out(exts) + rest) is None,
{
    let pkt = header + laid_out(exts) + rest;
    assert(pkt[0] == header[0]);
    if header.len() < 40 {
        assert(pkt =~= header);
    } else {
        lemma_after_chain(header, header[6], exts, kind, rest, 8);
        assert(pkt[6] == header[6]);
    }
}

/// The address text of an IPv6 flow is made from eight big-endian words.
pub proof fn law_hextets(b: Seq<u8>, at: int, i: int)
    requires
        0 <= i < 8,
    ensures
        hextets_at(b, at).len() == 8,
        hextets_at(b, at)[i] == b[at + 2 * i] * 256 + b[at + 2 * i + 1],
{
}

proof fn lemma_run_of_zeros(w: Seq<u16>, i: int, j: int)
    requires
        0 <= i <= j <= w.len(),
        forall|k: int| i <= k < j ==> #[trigger] w[k] == 0,
        j < w.len() ==> w[j] != 0,
    ensures
        zero_run(w, i) == j - i,
    decreases j - i,
{
    if i < j {
        lemma_run_of_zeros(w, i + 1, j);
    }
}

/// Two colons stand for the longest run of zero hextets, if it has two or more, and for
/// the first of several of that length: the hextets before it and behind it are written on
/// their sides. `i..j` is that run.
pub proof fn law_ip6_text_leaves_out_longest_run(w: Seq<u16>, i: int, j: int)
    requires
        w.len() == 8,
        0 <= i,
        i + 2 <= j <= 8,
        forall|k: int| i <= k < j ==> #[trigger] w[k] == 0,
        forall|k: int, l: int|
            #![trigger w.subrange(k, l)]
            0 <= k <= l <= 8 && (forall|m: int| k <= m < l ==> #[trigger] w[m] == 0) ==> l - k <= j
                - i && (k < i ==> l - k < j - i),
    ensures
        ip6_text(w) == joined(w.take(i)) + seq![':', ':'] + joined(w.skip(j)),
{
    if j < 8 && w[j] == 0 {
        let s = w.subrange(i, j + 1);
        assert(forall|m: int| i <= m < j + 1 ==> #[trigger] w[m] == 0);
        assert(false);
    }
    lemma_run_of_zeros(w, i, j);
    let start = longest_run(w, 0);
    law_longest_run(w, 0, i);
    lemma_zero_run(w, start);
    let s = w.subrange(start, start + zero_run(w, start));
    assert(zero_run(w, start) <= j - i);
    if start > i {
        assert(zero_run(w, i) < zero_run(w, start));
    }
    assert(start == i);
}

/// An address without two zero hextets side by side is written in full.
pub proof fn law_ip6_text_in_full(w: Seq<u16>)
    requires
        w.len() == 8,
        forall|k: int| #![trigger w[k]] 0 <= k < 7 ==> w[k] != 0 || w[k + 1] != 0,
    ensures
        ip6_text(w) == joined(w),
{
    let start = longest_run(w, 0);
    law_longest_run(w, 0, 0);
    lemma_zero_run(w, start);
    if zero_run(w, start) >= 2 {
        assert(w[start] == 0 && w[start + 1] == 0);
    }
}

/// Hextets are written one behind the other, with single colons between them, each in
/// lower case hexadecimal without leading zeros.
pub proof fn law_joined_grows(w: Seq<u16>, x: u16)
    ensures
        joined(Seq::<u16>::empty()) == Seq::<char>::empty(),
        joined(w.push(x)) == if w.len() == 0 {
            numeral(x as nat, 16)
        } else {
            joined(w) + seq![':'] + numeral(x as nat, 16)
        },
{
    assert(w.push(x).drop_last() =~= w);
}

/// The key of a TCP flow is `src:sport->dst:dport`, and that of another protocol has a
/// slash and the protocol's number behind that.
pub proof fn law_key_form(f: FlowView)
    ensures
        ({
            let ends = f.src + seq![':'] + numeral(f.sport as nat, 10) + seq!['-', '>'] + f.dst
                + seq![':'] + numeral(f.dport as nat, 10);
            &&& f.proto == 6 ==> f.key() == ends
            &&& f.proto != 6 ==> f.key() == ends + seq!['/'] + numeral(f.proto as nat, 10)
        }),
{
    let ends = f.src + seq![':'] + numeral(f.sport as nat, 10) + seq!['-', '>'] + f.dst + seq![':']
        + numeral(f.dport as nat, 10);
    if f.proto == 6 {
        assert(f.key() =~= ends);
    } else {
        assert(f.key() =~= ends + seq!['/'] + numeral(f.proto as nat, 10));
    }
}

/// The checksum fields of a rewritten packet's header and TCP segment are never all ones,
/// the other form of zero.
pub proof fn law_rewritten_checksums_are_not_all_ones(pkt: Seq<u8>, at: int, ip: Seq<u8>, n: int)
    requires
        pkt.len() >= 20,
        pkt[0] as int / 16 == 4,
        n == pkt[0] as int % 16 * 4,
        20 <= n <= pkt.len(),
        at == 12 || at == 16,
        ip.len() == 4,
    ensures
        ({
            let out = readdressed(pkt, at, ip);
            &&& out[10] != 0xff || out[11] != 0xff
            &&& pkt[9] == 6 && pkt.len() >= n + 18 ==> out[n + 16] != 0xff || out[n + 17] != 0xff
        }),
{
    let out = readdressed(pkt, at, ip);
    law_rewrite_changes(pkt, at, ip);
    law_rewrite_header_checksum(pkt, at, ip);
    let header = patched(out.take(n), 10, seq![0u8, 0u8]);
    assert(out[0] == pkt[0]);
    assert(header[0] == pkt[0]);
    assert(word_sum(header) > 0);
    lemma_ones_complement_add(word_sum(header), 0);
    if pkt[9] == 6 && pkt.len() >= n + 18 {
        law_rewrite_segment_checksum(pkt, at, ip);
        assert(out[9] == 6);
        let (src, dst, l4) = (out.subrange(12, 16), out.subrange(16, 20), out.skip(n));
        let ph = pseudo_header(src, dst, 6, l4.len());
        let hole = with_hole(l4, Some(TCP_CHECKSUM_AT));
        lemma_word_sum_concat(src + dst, seq![0u8, 6u8] + be_bytes((l4.len() % 0x10000) as u16));
        assert(ph =~= (src + dst) + (seq![0u8, 6u8] + be_bytes((l4.len() % 0x10000) as u16)));
        lemma_word_sum_concat(ph, hole);
        assert(word_sum(ph + hole) > 0);
        lemma_ones_complement_add(word_sum(ph + hole), 0);
        assert(word_at(out, n + 16) == own_segment_checksum(out));
    }
}

/// A rewrite of any packet that is neither TCP nor UDP, whatever header length it names,
/// puts the address in its place and touches nothing else but the header checksum.
pub proof fn law_rewrite_of_other_protocols(pkt: Seq<u8>, at: int, ip: Seq<u8>, i: int)
    requires
        pkt.len() >= 20,
        pkt[9] != 6,
        pkt[9] != 17,
        at == 12 || at == 16,
        ip.len() == 4,
        0 <= i < pkt.len(),
        i != 10 && i != 11,
    ensures
        readdressed(pkt, at, ip).len() == pkt.len(),
        readdressed(pkt, at, ip)[i] == if at <= i < at + 4 {
            ip[i - at]
        } else {
            pkt[i]
        },
{
}

/// A packet is read as the version in its upper first half byte says.
pub proof fn law_version_decides(pkt: Seq<u8>)
    requires
        pkt.len() > 0,
    ensures
        pkt[0] as int / 16 == 4 ==> parsed(pkt) == parsed_v4(pkt),
        pkt[0] as int / 16 == 6 ==> parsed(pkt) == parsed_v6(pkt),
{
}

/// Read as IPv4, bytes have a flow exactly when they hold the header length in their lower
/// first half byte, and no less than 20 bytes; the flow is made of the addresses, the
/// protocol and the ports, and of nothing else.
pub proof fn law_v4_layout(pkt: Seq<u8>, n: int)
    requires
        pkt.len() > 0,
        n == pkt[0] as int % 16 * 4,
    ensures
        parsed_v4(pkt) is Some <==> pkt.len() >= 20 && 20 <= n <= pkt.len(),
        parsed_v4(pkt) matches Some(f) ==> {
            &&& f.src == (Ipv4Addr { a: pkt[12], b: pkt[13], c: pkt[14], d: pkt[15] }).dotted()
            &&& f.dst == (Ipv4Addr { a: pkt[16], b: pkt[17], c: pkt[18], d: pkt[19] }).dotted()
            &&& f.proto == pkt[9]
            &&& (pkt[9] == 6 || pkt[9] == 17) && pkt.len() >= n + 4 ==> f.sport == pkt[n] * 256
                + pkt[n + 1] && f.dport == pkt[n + 2] * 256 + pkt[n + 3]
            &&& (pkt[9] != 6 && pkt[9] != 17) || pkt.len() < n + 4 ==> f.sport == 0 && f.dport == 0
        },
{
}

/// Read as IPv6, a header with a chain of extension headers and what follows have the flow
/// of the header's addresses, the protocol behind the chain, and its ports.
pub proof fn law_v6_layout(header: Seq<u8>, exts: Seq<Seq<u8>>, proto: u8, rest: Seq<u8>)
    requires
        header.len() == 40,
        announces(header[6], exts, proto),
        exts.len() <= 8,
        exts.len() < 8 ==> proto != 0 && proto != 43 && proto != 60 && proto != 135,
    ensures
        parsed_v6(header + laid_out(exts) + rest) matches Some(f) && {
            &&& f.src == ip6_text(hextets_at(header, 8))
            &&& f.dst == ip6_text(hextets_at(header, 24))
            &&& f.proto == proto
            &&& (proto == 6 || proto == 17) && rest.len() >= 4 ==> f.sport == rest[0] * 256
                + rest[1] && f.dport == rest[2] * 256 + rest[3]
            &&& (proto != 6 && proto != 17) || rest.len() < 4 ==> f.sport == 0 && f.dport == 0
        },
{
    let pkt = header + laid_out(exts) + rest;
    lemma_after_chain(header, header[6], exts, proto, rest, 8);
    assert(pkt[6] == header[6]);
    assert(hextets_at(pkt, 8) =~= hextets_at(header, 8));
    assert(hextets_at(pkt, 24) =~= hextets_at(header, 24));
    let at = 40 + laid_out(exts).len() as int;
    assert(pkt.len() == at + rest.len());
    if rest.len() >= 4 {
        assert(pkt[at] == rest[0] && pkt[at + 1] == rest[1] && pkt[at + 2] == rest[2] && pkt[at + 3]
            == rest[3]);
    }
}

/// An extension header `e` that the packet ends in, behind its first two bytes, still
/// announces the protocol of the flow, which then has no ports; where it announces another
/// extension header that would be walked over, there is no flow.
pub proof fn law_v6_cut_extension(header: Seq<u8>, exts: Seq<Seq<u8>>, kind: u8, e: Seq<u8>)
    requires
        header.len() == 40,
        announces(header[6], exts, kind),
        exts.len() < 8,
        kind == 0 || kind == 43 || kind == 60 || kind == 135,
        2 <= e.len() < (e[1] + 1) * 8,
    ensures
        exts.len() == 7 || (e[0] != 0 && e[0] != 43 && e[0] != 60 && e[0] != 135) ==> (parsed_v6(
            header + laid_out(exts) + e,
        ) matches Some(f) && f.src == ip6_text(hextets_at(header, 8)) && f.dst == ip6_text(
            hextets_at(header, 24),
        ) && f.proto == e[0] && f.sport == 0 && f.dport == 0),
        exts.len() < 7 && (e[0] == 0 || e[0] == 43 || e[0] == 60 || e[0] == 135) ==> parsed_v6(
            header + laid_out(exts) + e,
        ) is None,
{
    let pkt = header + laid_out(exts) + e;
    let at = 40 + laid_out(exts).len() as int;
    let fuel = (8 - exts.len()) as nat;
    lemma_after_chain(header, header[6], exts, kind, e, 8);
    assert(pkt[6] == header[6]);
    assert(hextets_at(pkt, 8) =~= hextets_at(header, 8));
    assert(hextets_at(pkt, 24) =~= hextets_at(header, 24));
    assert(pkt.len() == at + e.len());
    assert(pkt[at] == e[0] && pkt[at + 1] == e[1]);
    let after = at + (e[1] + 1) * 8;
    assert(after_extensions(pkt, kind, at, fuel) == after_extensions(
        pkt,
        e[0],
        after,
        (fuel - 1) as nat,
    ));
    assert(pkt.len() < after);
}

/// A packet that names a header of less than 20 bytes is rewritten like any other, with its
/// segment taken to start where it says, as long as the segment's checksum field, at `f`,
/// does not stand in the addresses: the address is in place, a receiver's checksum of the
/// segment is zero, and no byte `i` but those of the two checksums has changed.
pub proof fn law_rewrite_with_short_header(
    pkt: Seq<u8>,
    at: int,
    ip: Seq<u8>,
    n: int,
    f: int,
    i: int,
)
    requires
        pkt.len() >= 20,
        pkt[0] as int / 16 == 4,
        n == pkt[0] as int % 16 * 4,
        n < 20,
        pkt[9] == 6 && f == n + 16 || pkt[9] == 17 && f == n + 6,
        f + 2 <= 12 || f >= 20,
        pkt.len() >= f + 2,
        at == 12 || at == 16,
        ip.len() == 4,
        0 <= i < pkt.len(),
        i != 10 && i != 11 && i != f && i != f + 1,
    ensures
        ({
            let out = readdressed(pkt, at, ip);
            let len = pkt.len() - n;
            let addressed = out.subrange(12, 20) + seq![
                0u8,
                pkt[9],
                (len / 256 % 256) as u8,
                (len % 256) as u8,
            ] + out.skip(n);
            &&& out.len() == pkt.len()
            &&& out[i] == if at <= i < at + 4 {
                ip[i - at]
            } else {
                pkt[i]
            }
            &&& internet_checksum(addressed) == 0
            &&& pkt[9] == 17 ==> out[f] != 0 || out[f + 1] != 0
        }),
{
    let out = readdressed(pkt, at, ip);
    let len = (pkt.len() - n) as nat;
    let headed = with_header_checksum(patched(pkt, at, ip));
    assert(headed[0] == pkt[0] && headed[9] == pkt[9]);
    assert(has_segment_checksum(headed));
    let c = own_segment_checksum(headed);
    let field = (f - n) as usize;
    assert(out == patched(headed, f, be_bytes(c)));
    assert(out.subrange(12, 16) =~= headed.subrange(12, 16));
    assert(out.subrange(16, 20) =~= headed.subrange(16, 20));
    let segment = out.skip(n);
    let hole = with_hole(segment, Some(field));
    assert(hole =~= with_hole(headed.skip(n), Some(field)));
    let ph = pseudo_header(out.subrange(12, 16), out.subrange(16, 20), pkt[9], len);
    let whole = ph + segment;
    lemma_pseudo_header(out.subrange(12, 16), out.subrange(16, 20), pkt[9], len);
    assert(patched(whole, 12 + field, seq![0u8, 0u8]) =~= ph + hole);
    assert(whole =~= patched(whole, 12 + field, be_bytes(c)));
    lemma_held_checksum(whole, 12 + field, c);
    assert(out.subrange(12, 16) + out.subrange(16, 20) =~= out.subrange(12, 20));
    assert(whole =~= out.subrange(12, 20) + seq![
        0u8,
        pkt[9],
        (len / 256 % 256) as u8,
        (len % 256) as u8,
    ] + segment);
}

} // verus!
