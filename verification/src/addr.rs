//! IPv4 addresses and their dotted decimal form.

use crate::text::{
    all_digits, chars_of, digit_value, digits_value, lemma_numeral_reads_back, numeral,
    push_numeral,
};
use vstd::prelude::*;

verus! {

/// An IPv4 address: four octets, most significant first.
#[derive(Debug, Clone, Copy, PartialEq, Eq, Structural, Hash)]
pub struct Ipv4Addr {
    pub a: u8,
    pub b: u8,
    pub c: u8,
    pub d: u8,
}

impl View for Ipv4Addr {
    type V = Seq<u8>;

    /// The four octets.
    open spec fn view(&self) -> Seq<u8> {
        seq![self.a, self.b, self.c, self.d]
    }
}

/// Four octets in dotted decimal form.
pub open spec fn dotted(a: u8, b: u8, c: u8, d: u8) -> Seq<char> {
    numeral(a as nat, 10) + seq!['.'] + numeral(b as nat, 10) + seq!['.'] + numeral(c as nat, 10)
        + seq!['.'] + numeral(d as nat, 10)
}

/// The address whose dotted decimal form `s` is, where there is one.
pub open spec fn address_of(s: Seq<char>) -> Option<Ipv4Addr> {
    if exists|ip: Ipv4Addr| #[trigger] ip.dotted() == s {
        Some(choose|ip: Ipv4Addr| #[trigger] ip.dotted() == s)
    } else {
        None
    }
}

impl Ipv4Addr {
    /// The dotted decimal form of the address.
    pub open spec fn dotted(self) -> Seq<char> {
        dotted(self.a, self.b, self.c, self.d)
    }

    /// The address `a.b.c.d`.
    pub fn new(a: u8, b: u8, c: u8, d: u8) -> (r: Ipv4Addr)
        ensures
            r.a == a,
            r.b == b,
            r.c == c,
            r.d == d,
    {
        Ipv4Addr { a, b, c, d }
    }

    /// The four octets.
    pub fn octets(&self) -> (r: [u8; 4])
        ensures
            r@ == self@,
    {
        let r = [self.a, self.b, self.c, self.d];
        assert(r@ =~= self@);
        r
    }

    /// The dotted decimal form of the address.
    pub fn to_text(&self) -> (r: String)
        ensures
            r@ == self.dotted(),
    {
        let mut out = String::new();
        push_dotted(&mut out, self.a, self.b, self.c, self.d);
        assert(out@ =~= self.dotted());
        out
    }

    /// Reads an address in dotted decimal form: four decimal octets without
    /// leading zeros, separated by single dots, and nothing else.
    pub fn parse(s: &str) -> (r: Option<Ipv4Addr>)
        ensures
            r == address_of(s@),
            match r {
                Some(ip) => s@ == ip.dotted(),
                None => forall|ip: Ipv4Addr| s@ != #[trigger] ip.dotted(),
            },
    {
        let v = chars_of(s);
        match read_octet(&v, 0) {
            Some((a, i)) => {
                if i < v.len() && v[i] == '.' {
                    match read_octet(&v, i + 1) {
                        Some((b, j)) => {
                            if j < v.len() && v[j] == '.' {
                                match read_octet(&v, j + 1) {
                                    Some((c, k)) => {
                                        if k < v.len() && v[k] == '.' {
                                            match read_octet(&v, k + 1) {
                                                Some((d, end)) => {
                                                    if end == v.len() {
                                                        let ip = Ipv4Addr { a, b, c, d };
                                                        assert(s@ =~= ip.dotted());
                                                        proof {
                                                            law_address_reads_back(ip);
                                                        }
                                                        return Some(ip);
                                                    }
                                                },
                                                None => {},
                                            }
                                        }
                                    },
                                    None => {},
                                }
                            }
                        },
                        None => {},
                    }
                }
            },
            None => {},
        }
        assert forall|ip: Ipv4Addr| s@ != #[trigger] ip.dotted() by {
            if s@ == ip.dotted() {
                lemma_dotted_places(ip, s@);
            }
        }
        None
    }
}

/// The end of the run of decimal digits in `v` that starts at `i`.
pub open spec fn digits_end(v: Seq<char>, i: int) -> int
    decreases v.len() - i,
{
    if 0 <= i < v.len() && digit_value(v[i], 10) is Some {
        digits_end(v, i + 1)
    } else {
        i
    }
}

/// The octet whose numeral is the whole run of decimal digits in `v` at `i`, if
/// there is one.
pub open spec fn octet_at(v: Seq<char>, i: int, n: u8) -> bool {
    v.subrange(i, digits_end(v, i)) == numeral(n as nat, 10)
}

proof fn lemma_digits_end(v: Seq<char>, i: int, j: int)
    requires
        0 <= i <= j <= v.len(),
        forall|k: int| i <= k < j ==> digit_value(#[trigger] v[k], 10) is Some,
        j == v.len() || digit_value(v[j], 10) is None,
    ensures
        digits_end(v, i) == j,
    decreases j - i,
{
    if i < j {
        lemma_digits_end(v, i + 1, j);
    }
}

/// In the text `left + numeral(n) + right`, where `right` starts with no digit, the
/// run of digits after `left` is the numeral of `n`.
proof fn lemma_octet_in_place(v: Seq<char>, left: Seq<char>, n: u8, right: Seq<char>)
    requires
        v == left + numeral(n as nat, 10) + right,
        right.len() == 0 || right[0] == '.',
    ensures
        octet_at(v, left.len() as int, n),
        digits_end(v, left.len() as int) == left.len() + numeral(n as nat, 10).len(),
{
    let d = numeral(n as nat, 10);
    lemma_numeral_reads_back(n as nat, 10);
    let i = left.len() as int;
    let j = i + d.len();
    assert forall|k: int| i <= k < j implies digit_value(#[trigger] v[k], 10) is Some by {
        assert(v[k] == d[k - i]);
    }
    if j < v.len() {
        assert(v[j] == right[0]);
    }
    lemma_digits_end(v, i, j);
    assert(v.subrange(i, j) =~= d);
}

/// Where the four octets of an address stand in its dotted form.
proof fn lemma_dotted_places(ip: Ipv4Addr, v: Seq<char>)
    requires
        v == ip.dotted(),
    ensures
        ({
            let i = digits_end(v, 0);
            let j = digits_end(v, i + 1);
            let k = digits_end(v, j + 1);
            let end = digits_end(v, k + 1);
            &&& octet_at(v, 0, ip.a) && octet_at(v, i + 1, ip.b) && octet_at(v, j + 1, ip.c)
                && octet_at(v, k + 1, ip.d)
            &&& 0 <= i < j < k < end == v.len()
            &&& v[i] == '.' && v[j] == '.' && v[k] == '.'
        }),
{
    let dot = seq!['.'];
    let na = numeral(ip.a as nat, 10);
    let nb = numeral(ip.b as nat, 10);
    let nc = numeral(ip.c as nat, 10);
    let nd = numeral(ip.d as nat, 10);
    let none = Seq::<char>::empty();
    let tail_c = dot + nd;
    let tail_b = dot + nc + tail_c;
    let tail_a = dot + nb + tail_b;
    let head_b = na + dot;
    let head_c = head_b + nb + dot;
    let head_d = head_c + nc + dot;
    assert(v =~= none + na + tail_a);
    assert(v =~= head_b + nb + tail_b);
    assert(v =~= head_c + nc + tail_c);
    assert(v =~= head_d + nd + none);
    lemma_octet_in_place(v, none, ip.a, tail_a);
    lemma_octet_in_place(v, head_b, ip.b, tail_b);
    lemma_octet_in_place(v, head_c, ip.c, tail_c);
    lemma_octet_in_place(v, head_d, ip.d, none);
}

/// Two octets whose numerals are the same are the same.
proof fn lemma_octet_unique(m: u8, n: u8)
    requires
        numeral(m as nat, 10) == numeral(n as nat, 10),
    ensures
        m == n,
{
    lemma_numeral_reads_back(m as nat, 10);
    lemma_numeral_reads_back(n as nat, 10);
}

/// Reads the octet whose numeral is the run of decimal digits at `i`, and says where
/// the run ends.
fn read_octet(v: &Vec<char>, i: usize) -> (r: Option<(u8, usize)>)
    requires
        i <= v@.len(),
    ensures
        match r {
            Some((n, j)) => octet_at(v@, i as int, n) && j == digits_end(v@, i as int) && i < j
                <= v@.len() && v@.subrange(i as int, j as int) == numeral(n as nat, 10),
            None => forall|n: u8| !octet_at(v@, i as int, n),
        },
{
    let mut j: usize = i;
    let mut value: u64 = 0;
    let ghost end = digits_end(v@, i as int);
    while j < v.len() && j - i < 4 && is_digit(v[j])
        invariant
            i <= j <= v@.len(),
            j - i <= 4,
            forall|k: int| i <= k < j ==> digit_value(#[trigger] v@[k], 10) is Some,
            value == digits_value(v@.subrange(i as int, j as int), 10),
            j - i <= 0 ==> value == 0,
            j - i <= 1 ==> value < 10,
            j - i <= 2 ==> value < 100,
            j - i <= 3 ==> value < 1000,
            value < 10000,
            end == digits_end(v@, j as int),
            end == digits_end(v@, i as int),
        decreases v@.len() - j,
    {
        let d: u64 = v[j] as u64 - 48;
        proof {
            let s = v@.subrange(i as int, j + 1);
            assert(s.drop_last() =~= v@.subrange(i as int, j as int));
            assert(s.last() == v@[j as int]);
        }
        value = value * 10 + d;
        j = j + 1;
    }
    let ghost run = v@.subrange(i as int, j as int);
    proof {
        assert(all_digits(run, 10)) by {
            assert forall|k: int| 0 <= k < run.len() implies digit_value(#[trigger] run[k], 10) is Some by {
                assert(run[k] == v@[i + k]);
            }
        }
        lemma_end_not_before(v@, j as int);
        assert forall|n: u8| octet_at(v@, i as int, n) implies j == end && numeral(n as nat, 10) == run
            && 0 < run.len() <= 3 && value == n && (run[0] == '0' ==> run.len() == 1) by {
            lemma_numeral_reads_back(n as nat, 10);
            lemma_octet_short(n);
            assert(v@.subrange(i as int, end).len() == end - i);
        }
    }
    if j == i || j - i > 3 || value > 255 || (v[i] == '0' && j - i > 1) {
        return None;
    }
    proof {
        lemma_digits_end(v@, i as int, j as int);
        crate::text::lemma_digits_are_numeral(run);
    }
    Some((value as u8, j))
}

fn is_digit(c: char) -> (r: bool)
    ensures
        r == (digit_value(c, 10) is Some),
        r ==> 48 <= c as u64 <= 57 && digit_value(c, 10) == Some((c as u64 - 48) as nat),
{
    '0' <= c && c <= '9'
}

proof fn lemma_end_not_before(v: Seq<char>, i: int)
    requires
        0 <= i <= v.len(),
    ensures
        i <= digits_end(v, i) <= v.len(),
    decreases v.len() - i,
{
    if i < v.len() && digit_value(v[i], 10) is Some {
        lemma_end_not_before(v, i + 1);
    }
}

/// The numeral of an octet has at most three digits.
proof fn lemma_octet_short(n: u8)
    ensures
        1 <= numeral(n as nat, 10).len() <= 3,
{
    reveal_with_fuel(numeral, 4);
}

/// Appends four octets in dotted decimal form to `out`.
pub fn push_dotted(out: &mut String, a: u8, b: u8, c: u8, d: u8)
    ensures
        final(out)@ == old(out)@ + dotted(a, b, c, d),
{
    proof {
        reveal_strlit(".");
    }
    push_numeral(out, a as u64, 10);
    out.append(".");
    push_numeral(out, b as u64, 10);
    out.append(".");
    push_numeral(out, c as u64, 10);
    out.append(".");
    push_numeral(out, d as u64, 10);
    assert(out@ =~= old(out)@ + dotted(a, b, c, d));
}

/// Different addresses have different dotted forms.
pub proof fn law_dotted_injective(x: Ipv4Addr, y: Ipv4Addr)
    requires
        x.dotted() == y.dotted(),
    ensures
        x == y,
{
    lemma_dotted_places(x, x.dotted());
    lemma_dotted_places(y, x.dotted());
    lemma_octet_unique(x.a, y.a);
    lemma_octet_unique(x.b, y.b);
    lemma_octet_unique(x.c, y.c);
    lemma_octet_unique(x.d, y.d);
}

/// The dotted form of an address reads back as that address.
pub proof fn law_address_reads_back(ip: Ipv4Addr)
    ensures
        address_of(ip.dotted()) == Some(ip),
{
    let x = choose|x: Ipv4Addr| #[trigger] x.dotted() == ip.dotted();
    assert(x.dotted() == ip.dotted());
    law_dotted_injective(x, ip);
}

/// Whether `s` writes the number `n` in decimal digits, without a leading zero.
pub open spec fn writes(s: Seq<char>, n: u8) -> bool {
    &&& s.len() > 0
    &&& all_digits(s, 10)
    &&& digits_value(s, 10) == n
    &&& s[0] == '0' ==> s.len() == 1
}

/// The dotted form of an address is its four octets in decimal, with dots between them.
pub proof fn law_dotted_octets(ip: Ipv4Addr)
    ensures
        exists|p: Seq<char>, q: Seq<char>, r: Seq<char>, s: Seq<char>|
            writes(p, ip.a) && writes(q, ip.b) && writes(r, ip.c) && writes(s, ip.d)
                && ip.dotted() == #[trigger] (p + seq!['.'] + q + seq!['.'] + r + seq!['.'] + s),
{
    let (p, q) = (numeral(ip.a as nat, 10), numeral(ip.b as nat, 10));
    let (r, s) = (numeral(ip.c as nat, 10), numeral(ip.d as nat, 10));
    lemma_numeral_reads_back(ip.a as nat, 10);
    lemma_numeral_reads_back(ip.b as nat, 10);
    lemma_numeral_reads_back(ip.c as nat, 10);
    lemma_numeral_reads_back(ip.d as nat, 10);
    assert(ip.dotted() == p + seq!['.'] + q + seq!['.'] + r + seq!['.'] + s);
}

/// A text that is read as an address is the dotted form of that address, and a text that
/// is none of an address is not read.
pub proof fn law_only_dotted_is_read(s: Seq<char>)
    ensures
        address_of(s) matches Some(ip) ==> ip.dotted() == s,
        address_of(s) is None ==> forall|ip: Ipv4Addr| #[trigger] ip.dotted() != s,
{
}

} // verus!
