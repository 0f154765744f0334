//! A small synthetic flow generator for simulation.

use crate::addr::dotted;
use crate::packet::{parsed, FlowView};
use vstd::arithmetic::div_mod::{lemma_add_mod_noop, lemma_small_mod};
use vstd::prelude::*;

verus! {

/// The length of an IPv4 header without options and a TCP header.
pub const MIN_LENGTH: usize = 40;

/// Makes packets of pseudo-random flows, from eight seeds that take turns.
#[derive(Debug)]
pub struct PcapGenerator {
    pub tick: u64,
    pub seeds: [u32; 8],
}

impl Clone for PcapGenerator {
    fn clone(&self) -> (r: Self)
        ensures
            r == *self,
    {
        PcapGenerator { tick: self.tick, seeds: self.seeds }
    }
}

/// The number after `x` in the generator's sequence.
pub open spec fn successor(x: u32) -> u32 {
    x.wrapping_mul(1664525).wrapping_add(1013904223)
}

/// The source port that the number `rnd` stands for.
pub open spec fn port_for(rnd: u32) -> u16 {
    (rnd % 60000 + 1024) as u16
}

/// The byte at `i` of the packet that the number `rnd` stands for.
pub open spec fn packet_byte(rnd: u32, i: int) -> u8 {
    if i == 0 {
        0x45
    } else if i == 9 {
        6
    } else if i == 12 {
        (rnd / 0x1_0000 % 256) as u8
    } else if i == 13 {
        (rnd / 0x100 % 256) as u8
    } else if i == 14 {
        1
    } else if i == 15 {
        (rnd / 0x100_0000) as u8
    } else if i == 16 || i == 17 || i == 19 {
        8
    } else if i == 18 {
        (4 + rnd % 4) as u8
    } else if i == 20 {
        (port_for(rnd) / 256) as u8
    } else if i == 21 {
        (port_for(rnd) % 256) as u8
    } else if i == 22 {
        1
    } else if i == 23 {
        0xbb
    } else {
        0
    }
}

/// The packet of `len` bytes, or of as many as the headers need, that the number `rnd`
/// stands for.
pub open spec fn generated(rnd: u32, len: nat) -> Seq<u8> {
    Seq::new(
        if len < MIN_LENGTH {
            MIN_LENGTH as nat
        } else {
            len
        },
        |i: int| packet_byte(rnd, i),
    )
}

/// What a [`PcapGenerator`] holds.
pub struct GeneratorView {
    pub tick: u64,
    pub seeds: Seq<u32>,
}

impl View for PcapGenerator {
    type V = GeneratorView;

    open spec fn view(&self) -> GeneratorView {
        GeneratorView { tick: self.tick, seeds: self.seeds@ }
    }
}

impl GeneratorView {
    /// The seed whose turn is next.
    pub open spec fn slot(self) -> int {
        self.tick.wrapping_add(1) as int % 8
    }

    /// The number that the next packet is made from.
    pub open spec fn number(self) -> u32 {
        successor(self.seeds[self.slot()])
    }

    /// The generator after that packet.
    pub open spec fn after(self) -> GeneratorView {
        GeneratorView {
            tick: self.tick.wrapping_add(1),
            seeds: self.seeds.update(self.slot(), self.number()),
        }
    }
}

impl Default for PcapGenerator {
    fn default() -> (r: Self)
        ensures
            r@.tick == 0,
            r@.seeds == seq![7u32, 13, 29, 41, 53, 67, 79, 97],
    {
        let seeds: [u32; 8] = [7, 13, 29, 41, 53, 67, 79, 97];
        assert(seeds@ =~= seq![7u32, 13, 29, 41, 53, 67, 79, 97]);
        PcapGenerator { tick: 0, seeds }
    }
}

impl PcapGenerator {
    /// Build a realistic-looking IP/TCP packet of the given length.
    pub fn next_packet(&mut self, len: usize) -> (r: Vec<u8>)
        ensures
            r@ == generated(old(self)@.number(), len as nat),
            final(self)@ == old(self)@.after(),
    {
        self.tick = self.tick.wrapping_add(1);
        let slot: usize = (self.tick % 8) as usize;
        let seed: u32 = self.seeds[slot];
        let rnd: u32 = seed.wrapping_mul(1664525).wrapping_add(1013904223);
        self.seeds[slot] = rnd;
        assert(self@.seeds =~= old(self)@.after().seeds);

        let total: usize = if len < MIN_LENGTH {
            MIN_LENGTH
        } else {
            len
        };
        let mut pkt: Vec<u8> = vec![0u8; total];
        pkt[0] = 0x45;
        pkt[9] = 6;

        pkt[12] = (rnd / 0x1_0000 % 256) as u8;
        pkt[13] = (rnd / 0x100 % 256) as u8;
        pkt[14] = 1;
        pkt[15] = (rnd / 0x100_0000) as u8;
        pkt[16] = 8;
        pkt[17] = 8;
        pkt[18] = (4 + rnd % 4) as u8;
        pkt[19] = 8;

        let sport: u16 = (rnd % 60000 + 1024) as u16;
        pkt[20] = (sport / 256) as u8;
        pkt[21] = (sport % 256) as u8;
        pkt[22] = 1;
        pkt[23] = 0xbb;
        assert(pkt@ =~= generated(rnd, len as nat));
        pkt
    }
}

/// Every generated packet is parsed as a TCP flow to port 443 of one of four servers.
pub proof fn law_generated_packet_has_flow(rnd: u32, len: nat)
    ensures
        parsed(generated(rnd, len)) == Some(
            FlowView {
                src: dotted(
                    (rnd / 0x1_0000 % 256) as u8,
                    (rnd / 0x100 % 256) as u8,
                    1,
                    (rnd / 0x100_0000) as u8,
                ),
                dst: dotted(8, 8, (4 + rnd % 4) as u8, 8),
                proto: 6,
                sport: port_for(rnd),
                dport: 443,
            },
        ),
        1024 <= port_for(rnd) < 61024,
{
    let pkt = generated(rnd, len);
    assert(pkt[20] * 256 + pkt[21] == port_for(rnd));
}

/// Numbers follow each other as multiples of 1664525 plus 1013904223, modulo two to the
/// power of 32.
pub proof fn law_successor(x: u32)
    ensures
        successor(x) == (x * 1664525 + 1013904223) % 0x1_0000_0000,
{
    let m = x as int * 1664525;
    let product = x.wrapping_mul(1664525);
    assert(product as int == m % 0x1_0000_0000);
    lemma_add_mod_noop(m, 1013904223, 0x1_0000_0000);
    lemma_small_mod(1013904223, 0x1_0000_0000);
    assert(product.wrapping_add(1013904223) == (product + 1013904223) % 0x1_0000_0000);
}

/// The seeds take turns: each packet is made from the number after the next seed, which
/// takes its place, and the other seeds stay.
pub proof fn law_seeds_take_turns(g: GeneratorView, i: int)
    requires
        g.seeds.len() == 8,
        0 <= i < 8,
    ensures
        g.after().seeds.len() == 8,
        g.after().tick == (g.tick + 1) % 0x1_0000_0000_0000_0000,
        i == (g.tick + 1) % 0x1_0000_0000_0000_0000 % 8 ==> g.number() == successor(g.seeds[i])
            && g.after().seeds[i] == g.number(),
        i != (g.tick + 1) % 0x1_0000_0000_0000_0000 % 8 ==> g.after().seeds[i] == g.seeds[i],
{
}

/// A generated packet has the length asked for, but no less than 40 bytes; it starts as an
/// IPv4 header without options, and what is not version, protocol, addresses or ports is
/// zero.
pub proof fn law_generated_packet_bytes(rnd: u32, len: nat, i: int)
    requires
        0 <= i,
        i < len || i < 40,
    ensures
        len >= 40 ==> generated(rnd, len).len() == len,
        len < 40 ==> generated(rnd, len).len() == 40,
        generated(rnd, len)[0] == 0x45,
        (1 <= i <= 8 || 10 <= i <= 11 || i >= 24) ==> generated(rnd, len)[i] == 0,
{
}

/// The source port of a generated packet is 1024 and the number modulo 60000.
pub proof fn law_generated_port(rnd: u32)
    ensures
        port_for(rnd) == 1024 + rnd as int % 60000,
{
}

} // verus!
