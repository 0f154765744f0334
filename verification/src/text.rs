//! Text as sequences of characters: numerals, trimming, prefixes and order.

use vstd::prelude::*;

verus! {

/// The text in `s`, where there is one.
pub open spec fn text_of(s: Option<String>) -> Option<Seq<char>> {
    match s {
        Some(t) => Some(t@),
        None => None,
    }
}

/// The digit of value `d`, in lower case.
pub open spec fn digit_char(d: int) -> char {
    if d < 10 {
        (d + 48) as char
    } else {
        (d + 87) as char
    }
}

/// `n` written in base `base`, most significant digit first, without leading zeros.
pub open spec fn numeral(n: nat, base: nat) -> Seq<char>
    decreases n,
    when base >= 2
{
    if n < base {
        seq![digit_char(n as int)]
    } else {
        proof {
            vstd::arithmetic::div_mod::lemma_div_decreases(n as int, base as int);
        }
        numeral(n / base, base).push(digit_char((n % base) as int))
    }
}

/// The digit of value `d`, as text.
fn digit_str(d: u64) -> (r: &'static str)
    requires
        d < 16,
    ensures
        r@ == seq![digit_char(d as int)],
{
    proof {
        reveal_strlit("0");
        reveal_strlit("1");
        reveal_strlit("2");
        reveal_strlit("3");
        reveal_strlit("4");
        reveal_strlit("5");
        reveal_strlit("6");
        reveal_strlit("7");
        reveal_strlit("8");
        reveal_strlit("9");
        reveal_strlit("a");
        reveal_strlit("b");
        reveal_strlit("c");
        reveal_strlit("d");
        reveal_strlit("e");
        reveal_strlit("f");
    }
    match d {
        0 => "0",
        1 => "1",
        2 => "2",
        3 => "3",
        4 => "4",
        5 => "5",
        6 => "6",
        7 => "7",
        8 => "8",
        9 => "9",
        10 => "a",
        11 => "b",
        12 => "c",
        13 => "d",
        14 => "e",
        _ => "f",
    }
}

/// Appends `n`, written in base `base`, to `out`.
pub fn push_numeral(out: &mut String, n: u64, base: u64)
    requires
        2 <= base <= 16,
    ensures
        final(out)@ == old(out)@ + numeral(n as nat, base as nat),
    decreases n,
{
    if n >= base {
        proof {
            vstd::arithmetic::div_mod::lemma_div_decreases(n as int, base as int);
        }
        push_numeral(out, n / base, base);
    }
    proof {
        vstd::arithmetic::div_mod::lemma_mod_bound(n as int, base as int);
        if n < base {
            vstd::arithmetic::div_mod::lemma_small_mod(n as nat, base as nat);
        }
    }
    let ghost before = out@;
    out.append(digit_str(n % base));
    proof {
        if n >= base {
            assert(out@ =~= old(out)@ + numeral((n / base) as nat, base as nat).push(
                digit_char((n % base) as int),
            ));
        }
    }
}

/// The characters of `s`.
pub fn chars_of(s: &str) -> (v: Vec<char>)
    ensures
        v@ == s@,
{
    let mut v: Vec<char> = Vec::new();
    for c in it: s.chars()
        invariant
            v@ == it.seq().take(it.index()),
            it.seq() == s@,
    {
        v.push(c);
    }
    v
}


/// The value of `c` as a digit in base `base` (upper or lower case), if it is one.
pub open spec fn digit_value(c: char, base: nat) -> Option<nat> {
    let d: int = if '0' <= c <= '9' {
        c as int - 48
    } else if 'a' <= c <= 'z' {
        c as int - 87
    } else if 'A' <= c <= 'Z' {
        c as int - 55
    } else {
        base as int
    };
    if d < base {
        Some(d as nat)
    } else {
        None
    }
}

/// Whether `s` consists of digits in base `base`.
pub open spec fn all_digits(s: Seq<char>, base: nat) -> bool {
    forall|i: int| 0 <= i < s.len() ==> digit_value(#[trigger] s[i], base) is Some
}

/// The number that the digits of `s` write in base `base`.
pub open spec fn digits_value(s: Seq<char>, base: nat) -> nat
    decreases s.len(),
{
    if s.len() == 0 {
        0
    } else {
        digits_value(s.drop_last(), base) * base + digit_value(s.last(), base).unwrap()
    }
}

/// The unsigned number that `s` writes: an optional plus sign, then one or more
/// digits in base `base` whose value fits in 64 bits.
pub open spec fn unsigned_text(s: Seq<char>, base: nat) -> Option<u64> {
    let digits = if s.len() > 0 && s[0] == '+' {
        s.skip(1)
    } else {
        s
    };
    if digits.len() > 0 && all_digits(digits, base) && digits_value(digits, base) <= u64::MAX {
        Some(digits_value(digits, base) as u64)
    } else {
        None
    }
}

fn digit_of(c: char, base: u64) -> (r: Option<u64>)
    requires
        2 <= base <= 16,
    ensures
        match r {
            Some(d) => digit_value(c, base as nat) == Some(d as nat) && d < base,
            None => digit_value(c, base as nat) is None,
        },
{
    let code: u32 = c as u32;
    let d: u64 = if 48 <= code && code <= 57 {
        (code - 48) as u64
    } else if 97 <= code && code <= 122 {
        (code - 87) as u64
    } else if 65 <= code && code <= 90 {
        (code - 55) as u64
    } else {
        base
    };
    if d < base {
        Some(d)
    } else {
        None
    }
}

/// Later digits never make the number smaller.
proof fn lemma_digits_value_grows(s: Seq<char>, i: int, base: nat)
    requires
        0 <= i <= s.len(),
        base >= 1,
        all_digits(s, base),
    ensures
        digits_value(s.take(i), base) <= digits_value(s, base),
    decreases s.len() - i,
{
    if i == s.len() {
        assert(s.take(i) =~= s);
    } else {
        lemma_digits_value_grows(s, i + 1, base);
        assert(s.take(i + 1).drop_last() =~= s.take(i));
        let v = digits_value(s.take(i), base);
        assert(v <= v * base) by (nonlinear_arith)
            requires
                base >= 1,
        ;
    }
}

/// Reads an unsigned number in base `base`.
pub fn parse_unsigned(s: &str, base: u64) -> (r: Option<u64>)
    requires
        2 <= base <= 16,
    ensures
        r == unsigned_text(s@, base as nat),
{
    let v = chars_of(s);
    let start: usize = if v.len() > 0 && v[0] == '+' {
        1
    } else {
        0
    };
    if v.len() == start {
        return None;
    }
    let ghost digits = s@.skip(start as int);
    assert(digits == if s@.len() > 0 && s@[0] == '+' {
        s@.skip(1)
    } else {
        s@
    }) by {
        assert(s@.skip(0) =~= s@);
    }
    let mut value: u64 = 0;
    let mut i: usize = start;
    while i < v.len()
        invariant
            2 <= base <= 16,
            start <= i <= v.len(),
            v@ == s@,
            digits == s@.skip(start as int),
            start <= 1,
            all_digits(digits.take(i - start), base as nat),
            value == digits_value(digits.take(i - start), base as nat),
            unsigned_text(s@, base as nat) == (if digits.len() > 0 && all_digits(digits, base as nat)
                && digits_value(digits, base as nat) <= u64::MAX {
                Some(digits_value(digits, base as nat) as u64)
            } else {
                None
            }),
        decreases v.len() - i,
    {
        let ghost upto = digits.take(i + 1 - start);
        assert(upto.drop_last() =~= digits.take(i - start));
        assert(upto.last() == v[i as int]);
        match digit_of(v[i], base) {
            None => {
                assert(digits[i - start] == v[i as int]);
                return None;
            },
            Some(d) => {
                proof {
                    assert forall|j: int| 0 <= j < upto.len() implies digit_value(
                        #[trigger] upto[j],
                        base as nat,
                    ) is Some by {
                        if j < upto.len() - 1 {
                            assert(digits.take(i - start)[j] == upto[j]);
                        }
                    }
                    if all_digits(digits, base as nat) {
                        lemma_digits_value_grows(digits, i + 1 - start, base as nat);
                    }
                }
                match value.checked_mul(base) {
                    None => {
                        return None;
                    },
                    Some(scaled) => {
                        match scaled.checked_add(d) {
                            None => {
                                return None;
                            },
                            Some(next) => {
                                value = next;
                            },
                        }
                    },
                }
            },
        }
        i = i + 1;
    }
    assert(digits.take(i - start) =~= digits);
    Some(value)
}

/// Whether `c` has the Unicode property `White_Space`.
pub open spec fn is_space(c: char) -> bool {
    let n = c as int;
    ||| 0x9 <= n <= 0xd
    ||| n == 0x20
    ||| n == 0x85
    ||| n == 0xa0
    ||| n == 0x1680
    ||| 0x2000 <= n <= 0x200a
    ||| n == 0x2028
    ||| n == 0x2029
    ||| n == 0x202f
    ||| n == 0x205f
    ||| n == 0x3000
}

fn space(c: char) -> (r: bool)
    ensures
        r == is_space(c),
{
    let n: u32 = c as u32;
    (0x9 <= n && n <= 0xd) || n == 0x20 || n == 0x85 || n == 0xa0 || n == 0x1680 || (0x2000 <= n
        && n <= 0x200a) || n == 0x2028 || n == 0x2029 || n == 0x202f || n == 0x205f || n == 0x3000
}

/// `s` without the white space at its two ends.
pub open spec fn trimmed(s: Seq<char>) -> Seq<char>
    decreases s.len(),
{
    if s.len() > 0 && is_space(s.first()) {
        trimmed(s.drop_first())
    } else if s.len() > 0 && is_space(s.last()) {
        trimmed(s.drop_last())
    } else {
        s
    }
}

/// The part of `s` between the white space at its two ends.
pub fn trim(s: &str) -> (r: &str)
    ensures
        r@ == trimmed(s@),
{
    let v = chars_of(s);
    let mut from: usize = 0;
    let mut to: usize = v.len();
    assert(s@.subrange(0, to as int) =~= s@);
    while from < to && space(v[from])
        invariant
            from <= to == v.len(),
            v@ == s@,
            trimmed(s@) == trimmed(s@.subrange(from as int, to as int)),
        decreases to - from,
    {
        assert(s@.subrange(from as int, to as int).drop_first() =~= s@.subrange(
            from + 1,
            to as int,
        ));
        from = from + 1;
    }
    while from < to && space(v[to - 1])
        invariant
            from <= to <= v.len(),
            v@ == s@,
            from < to ==> !is_space(s@[from as int]),
            trimmed(s@) == trimmed(s@.subrange(from as int, to as int)),
        decreases to - from,
    {
        assert(s@.subrange(from as int, to as int).drop_last() =~= s@.subrange(
            from as int,
            to - 1,
        ));
        to = to - 1;
    }
    s.substring_char(from, to)
}

/// Whether `s` starts with `p`.
pub open spec fn has_prefix(s: Seq<char>, p: Seq<char>) -> bool {
    p.len() <= s.len() && s.take(p.len() as int) == p
}

/// Whether `s` starts with `p`.
pub fn starts_with(s: &str, p: &str) -> (r: bool)
    ensures
        r == has_prefix(s@, p@),
{
    let v = chars_of(s);
    let w = chars_of(p);
    if w.len() > v.len() {
        return false;
    }
    let mut i: usize = 0;
    while i < w.len()
        invariant
            i <= w.len() <= v.len(),
            v@ == s@,
            w@ == p@,
            s@.take(i as int) == p@.take(i as int),
        decreases w.len() - i,
    {
        if v[i] != w[i] {
            assert(s@.take(p@.len() as int)[i as int] == s@[i as int]);
            return false;
        }
        assert(s@.take(i + 1) =~= s@.take(i as int).push(s@[i as int]));
        assert(p@.take(i + 1) =~= p@.take(i as int).push(p@[i as int]));
        i = i + 1;
    }
    assert(p@.take(i as int) =~= p@);
    true
}

/// `s` with every leading repetition of `p` taken off.
pub open spec fn without_leading(s: Seq<char>, p: Seq<char>) -> Seq<char>
    decreases s.len(),
{
    if p.len() > 0 && has_prefix(s, p) {
        without_leading(s.skip(p.len() as int), p)
    } else {
        s
    }
}

/// `s` with every leading repetition of `p` taken off.
pub fn trim_leading<'a>(s: &'a str, p: &str) -> (r: &'a str)
    requires
        p@.len() > 0,
    ensures
        r@ == without_leading(s@, p@),
    decreases s@.len(),
{
    if starts_with(s, p) {
        let rest = s.substring_char(p.unicode_len(), s.unicode_len());
        assert(rest@ =~= s@.skip(p@.len() as int));
        trim_leading(rest, p)
    } else {
        s
    }
}

/// Whether the two texts are the same.
pub fn same_text(a: &str, b: &str) -> (r: bool)
    ensures
        r == (a@ == b@),
{
    let r = starts_with(a, b) && starts_with(b, a);
    assert(r ==> a@.take(b@.len() as int) =~= a@);
    assert(a@ == b@ ==> a@.take(b@.len() as int) =~= b@);
    r
}

/// The order of texts: by the code points at the first place where they differ,
/// and a text comes before its own extensions.
pub open spec fn text_le(a: Seq<char>, b: Seq<char>) -> bool
    decreases a.len(),
{
    if a.len() == 0 {
        true
    } else if b.len() == 0 {
        false
    } else if a[0] == b[0] {
        text_le(a.drop_first(), b.drop_first())
    } else {
        (a[0] as int) < (b[0] as int)
    }
}

/// Whether `a` comes no later than `b`.
pub fn not_after(a: &str, b: &str) -> (r: bool)
    ensures
        r == text_le(a@, b@),
{
    let v = chars_of(a);
    let w = chars_of(b);
    let mut i: usize = 0;
    assert(a@.skip(0) =~= a@);
    assert(b@.skip(0) =~= b@);
    while i < v.len() && i < w.len()
        invariant
            i <= v.len(),
            i <= w.len(),
            v@ == a@,
            w@ == b@,
            text_le(a@, b@) == text_le(a@.skip(i as int), b@.skip(i as int)),
        decreases v.len() - i,
    {
        let c: char = v[i];
        let d: char = w[i];
        if c != d {
            let m: u32 = c as u32;
            let n: u32 = d as u32;
            proof {
                vstd::utf8::char_u32_cast(c, m);
                vstd::utf8::char_u32_cast(d, n);
            }
            return m < n;
        }
        assert(a@.skip(i as int).drop_first() =~= a@.skip(i + 1));
        assert(b@.skip(i as int).drop_first() =~= b@.skip(i + 1));
        i = i + 1;
    }
    i == v.len()
}

/// Every text comes no later than itself.
pub proof fn lemma_text_le_reflexive(a: Seq<char>)
    ensures
        text_le(a, a),
    decreases a.len(),
{
    if a.len() > 0 {
        lemma_text_le_reflexive(a.drop_first());
    }
}

/// Of two texts, one comes no later than the other.
pub proof fn lemma_text_le_total(a: Seq<char>, b: Seq<char>)
    ensures
        text_le(a, b) || text_le(b, a),
    decreases a.len(),
{
    if a.len() > 0 && b.len() > 0 && a[0] == b[0] {
        lemma_text_le_total(a.drop_first(), b.drop_first());
    }
}

/// Two texts that each come no later than the other are the same.
pub proof fn lemma_text_le_antisymmetric(a: Seq<char>, b: Seq<char>)
    requires
        text_le(a, b),
        text_le(b, a),
    ensures
        a == b,
    decreases a.len(),
{
    if a.len() > 0 && b.len() > 0 {
        assert(a[0] == b[0]);
        lemma_text_le_antisymmetric(a.drop_first(), b.drop_first());
        let s = a.drop_first();
        let t = b.drop_first();
        assert forall|i: int| 0 <= i < a.len() implies a[i] == b[i] by {
            if i > 0 {
                assert(s[i - 1] == t[i - 1]);
            }
        }
        assert(s.len() == t.len());
        assert(a =~= b);
    } else {
        assert(a =~= b);
    }
}

/// The order of texts is transitive.
pub proof fn lemma_text_le_transitive(a: Seq<char>, b: Seq<char>, c: Seq<char>)
    requires
        text_le(a, b),
        text_le(b, c),
    ensures
        text_le(a, c),
    decreases a.len(),
{
    if a.len() > 0 && a[0] == b[0] && b[0] == c[0] {
        lemma_text_le_transitive(a.drop_first(), b.drop_first(), c.drop_first());
    }
}

/// A numeral consists of digits and reads back as its number; only zero starts
/// with the digit zero.
pub proof fn lemma_numeral_reads_back(n: nat, base: nat)
    requires
        2 <= base <= 16,
    ensures
        numeral(n, base).len() > 0,
        all_digits(numeral(n, base), base),
        digits_value(numeral(n, base), base) == n,
        numeral(n, base)[0] == '0' ==> n == 0,
        n == 0 ==> numeral(n, base).len() == 1,
    decreases n,
{
    let s = numeral(n, base);
    vstd::arithmetic::div_mod::lemma_mod_bound(n as int, base as int);
    if n < base {
        assert(s == seq![digit_char(n as int)]);
        assert(s.drop_last() =~= Seq::<char>::empty());
        assert(digit_value(s[0], base) == Some(n));
        assert(digits_value(s.drop_last(), base) == 0);
        assert(0 * base == 0) by (nonlinear_arith);
        assert(digits_value(s, base) == n);
    } else {
        vstd::arithmetic::div_mod::lemma_div_decreases(n as int, base as int);
        vstd::arithmetic::div_mod::lemma_fundamental_div_mod(n as int, base as int);
        vstd::arithmetic::div_mod::lemma_div_non_zero(n as int, base as int);
        lemma_numeral_reads_back(n / base, base);
        let head = numeral(n / base, base);
        assert(s.drop_last() =~= head);
        assert(digit_value(s.last(), base) == Some(n % base));
        assert(base * (n / base) == (n / base) * base) by (nonlinear_arith);
        assert(digits_value(s, base) == digits_value(head, base) * base + n % base);
        assert forall|i: int| 0 <= i < s.len() implies digit_value(#[trigger] s[i], base) is Some by {
            if i < s.len() - 1 {
                assert(s[i] == head[i]);
            }
        }
    }
}

/// Decimal digits without a leading zero are the numeral of the number they write.
pub proof fn lemma_digits_are_numeral(s: Seq<char>)
    requires
        s.len() > 0,
        all_digits(s, 10),
        s[0] != '0' || s.len() == 1,
    ensures
        numeral(digits_value(s, 10), 10) == s,
        s.len() > 1 ==> digits_value(s, 10) >= 10,
    decreases s.len(),
{
    let head = s.drop_last();
    let d = digit_value(s.last(), 10).unwrap();
    assert(digit_value(s[s.len() - 1], 10) is Some);
    assert(digit_char(d as int) == s.last());
    if s.len() == 1 {
        assert(digits_value(head, 10) == 0);
        assert(s =~= seq![digit_char(d as int)]);
    } else {
        assert(head[0] == s[0]);
        assert forall|i: int| 0 <= i < head.len() implies digit_value(#[trigger] head[i], 10) is Some by {
            assert(head[i] == s[i]);
        }
        lemma_digits_are_numeral(head);
        let v = digits_value(head, 10);
        if head.len() == 1 {
            assert(head.drop_last() =~= Seq::<char>::empty());
            assert(digits_value(head.drop_last(), 10) == 0);
            assert(v == digit_value(head[0], 10).unwrap());
            assert(v > 0);
        }
        assert((v * 10 + d) / 10 == v);
        assert((v * 10 + d) % 10 == d);
        assert(s =~= head.push(s.last()));
    }
}

/// Digits are `0` to `9` and the letters from `a` on, in lower or upper case; numerals are
/// written in lower case.
pub proof fn law_digits(d: int, base: nat)
    requires
        0 <= d < base <= 16,
    ensures
        d < 10 ==> digit_char(d) as int == '0' as int + d,
        d >= 10 ==> digit_char(d) as int == 'a' as int + d - 10,
        digit_value(digit_char(d), base) == Some(d as nat),
        d >= 10 ==> digit_value(('A' as int + d - 10) as char, base) == Some(d as nat),
{
}

/// What is neither a decimal digit nor a letter from `a` to `f` is no digit, and letters
/// are none in base ten.
pub proof fn law_no_digits(c: char, base: nat)
    requires
        base <= 16,
        c < '0' || c > '9',
        base <= 10 || ((c < 'a' || c > 'f') && (c < 'A' || c > 'F')),
    ensures
        digit_value(c, base) is None,
{
}

/// A numeral of one digit is that digit, and another digit behind a numeral multiplies its
/// number by the base and adds the digit.
pub proof fn law_numeral_grows(n: nat, d: nat, base: nat)
    requires
        2 <= base <= 16,
        d < base,
    ensures
        numeral(d, base) == seq![digit_char(d as int)],
        n > 0 ==> numeral(n * base + d, base) == numeral(n, base).push(digit_char(d as int)),
{
    if n > 0 {
        let m = n * base + d;
        assert(m >= base) by (nonlinear_arith)
            requires
                m == n * base + d,
                n > 0,
        ;
        vstd::arithmetic::div_mod::lemma_fundamental_div_mod_converse(
            m as int,
            base as int,
            n as int,
            d as int,
        );
        assert(numeral(m, base) =~= numeral(n, base).push(digit_char(d as int)));
    }
}

/// The number that a numeral writes is read back, with or without a plus sign, unless it
/// does not fit in 64 bits.
pub proof fn law_numeral_is_read(n: nat, base: nat)
    requires
        2 <= base <= 16,
    ensures
        n <= u64::MAX ==> unsigned_text(numeral(n, base), base) == Some(n as u64),
        n <= u64::MAX ==> unsigned_text(seq!['+'] + numeral(n, base), base) == Some(n as u64),
        n > u64::MAX ==> unsigned_text(numeral(n, base), base) is None,
        n > u64::MAX ==> unsigned_text(seq!['+'] + numeral(n, base), base) is None,
{
    lemma_numeral_reads_back(n, base);
    let s = numeral(n, base);
    assert(digit_value(s[0], base) is Some);
    assert((seq!['+'] + s).skip(1) =~= s);
}

/// Text with a character that is no digit, other than a plus sign in front, writes no
/// number, and neither does text without digits.
pub proof fn law_other_text_is_no_number(s: Seq<char>, base: nat, i: int)
    requires
        s.len() == 0 || (s.len() == 1 && s[0] == '+') || (0 <= i < s.len() && digit_value(
            s[i],
            base,
        ) is None && (i > 0 || s[i] != '+')),
    ensures
        unsigned_text(s, base) is None,
{
    if s.len() > 0 && s[0] == '+' && i > 0 && i < s.len() {
        assert(s.skip(1)[i - 1] == s[i]);
    }
}

/// Leading zeros do not change a number.
pub proof fn law_leading_zero(s: Seq<char>, base: nat)
    requires
        2 <= base <= 16,
        s.len() > 0,
        s[0] != '+',
    ensures
        unsigned_text(seq!['0'] + s, base) == unsigned_text(s, base),
{
    let t = seq!['0'] + s;
    assert(digit_value('0', base) == Some(0nat));
    if all_digits(s, base) {
        assert forall|i: int| 0 <= i < t.len() implies digit_value(#[trigger] t[i], base) is Some by {
            if i > 0 {
                assert(t[i] == s[i - 1]);
            }
        }
        lemma_leading_zero_value(s, base);
    } else {
        let i = choose|i: int| 0 <= i < s.len() && digit_value(#[trigger] s[i], base) is None;
        assert(t[i + 1] == s[i]);
    }
}

proof fn lemma_leading_zero_value(s: Seq<char>, base: nat)
    requires
        2 <= base <= 16,
    ensures
        digits_value(seq!['0'] + s, base) == digits_value(s, base),
    decreases s.len(),
{
    let t = seq!['0'] + s;
    if s.len() == 0 {
        assert(t.drop_last() =~= s);
        assert(0 * base == 0) by (nonlinear_arith);
    } else {
        assert(t.drop_last() =~= seq!['0'] + s.drop_last());
        lemma_leading_zero_value(s.drop_last(), base);
    }
}

/// The white space of ASCII is white space, and no character that shows is.
pub proof fn law_ascii_space(c: char)
    requires
        c as int <= 0x7f,
    ensures
        is_space(c) <==> c == ' ' || c == '\t' || c == '\n' || c == '\r' || c as int == 0xb || c as int
            == 0xc,
{
}

/// Beyond ASCII, white space is the next line, the no-break spaces, the spaces of given
/// width, the ideographic space, and the separators of lines and paragraphs.
pub proof fn law_other_space(c: char)
    requires
        c as int > 0x7f,
    ensures
        is_space(c) <==> c as int == 0x85 || c as int == 0xa0 || c as int == 0x202f || c as int
            == 0x1680 || (c as int / 16 == 0x200 && c as int % 16 <= 10) || c as int == 0x205f || c as int
            == 0x3000 || c as int == 0x2028 || c as int == 0x2029,
{
}

/// Trimming takes the white space off both ends and nothing else.
pub proof fn law_trim(a: Seq<char>, core: Seq<char>, b: Seq<char>)
    requires
        forall|i: int| 0 <= i < a.len() ==> is_space(#[trigger] a[i]),
        forall|i: int| 0 <= i < b.len() ==> is_space(#[trigger] b[i]),
        core.len() > 0 ==> !is_space(core[0]) && !is_space(core.last()),
    ensures
        trimmed(a + core + b) == core,
    decreases a.len() + b.len(),
{
    let s = a + core + b;
    if a.len() > 0 {
        let rest = a.drop_first();
        assert(s.drop_first() =~= rest + core + b);
        assert(s.first() == a[0]);
        assert forall|i: int| 0 <= i < rest.len() implies is_space(#[trigger] rest[i]) by {
            assert(rest[i] == a[i + 1]);
        }
        law_trim(rest, core, b);
    } else if core.len() > 0 {
        assert(s.first() == core[0]);
        if b.len() > 0 {
            let rest = b.drop_last();
            assert(s.drop_last() =~= a + core + rest);
            assert(s.last() == b[b.len() - 1]);
            assert forall|i: int| 0 <= i < rest.len() implies is_space(#[trigger] rest[i]) by {
                assert(rest[i] == b[i]);
            }
            law_trim(a, core, rest);
        } else {
            assert(s =~= core);
        }
    } else if b.len() > 0 {
        let rest = b.drop_first();
        assert(s.drop_first() =~= a + core + rest);
        assert(s.first() == b[0]);
        assert forall|i: int| 0 <= i < rest.len() implies is_space(#[trigger] rest[i]) by {
            assert(rest[i] == b[i + 1]);
        }
        law_trim(a, core, rest);
    } else {
        assert(s =~= core);
    }
}

/// A text starts with `p` exactly when it is `p` and something behind it.
pub proof fn law_prefix(s: Seq<char>, p: Seq<char>)
    ensures
        has_prefix(s, p) <==> exists|t: Seq<char>| s == #[trigger] (p + t),
{
    if has_prefix(s, p) {
        assert(s =~= p + s.skip(p.len() as int));
    }
    if exists|t: Seq<char>| s == #[trigger] (p + t) {
        let t = choose|t: Seq<char>| s == #[trigger] (p + t);
        assert(s.take(p.len() as int) =~= p);
    }
}

/// What does not start with `p` is left as it is, and each `p` in front is taken off.
pub proof fn law_without_leading(s: Seq<char>, p: Seq<char>)
    requires
        p.len() > 0,
    ensures
        !has_prefix(s, p) ==> without_leading(s, p) == s,
        without_leading(p + s, p) == without_leading(s, p),
{
    assert((p + s).take(p.len() as int) =~= p);
    assert((p + s).skip(p.len() as int) =~= s);
}

/// Texts are ordered by their first difference, and a text comes before its extensions.
pub proof fn law_order_of_texts(
    p: Seq<char>,
    x: char,
    a: Seq<char>,
    y: char,
    b: Seq<char>,
)
    ensures
        x < y ==> text_le(p + seq![x] + a, p + seq![y] + b) && !text_le(
            p + seq![y] + b,
            p + seq![x] + a,
        ),
        text_le(p, p + a),
        !text_le(p + seq![x] + a, p),
    decreases p.len(),
{
    let (s, t) = (p + seq![x] + a, p + seq![y] + b);
    if p.len() > 0 {
        let q = p.drop_first();
        law_order_of_texts(q, x, a, y, b);
        assert(s.drop_first() =~= q + seq![x] + a);
        assert(t.drop_first() =~= q + seq![y] + b);
        assert((p + a).drop_first() =~= q + a);
        assert(s[0] == p[0] && t[0] == p[0] && (p + a)[0] == p[0]);
    } else {
        assert(s[0] == x && t[0] == y);
    }
}

/// Whether `s` consists of white space.
pub open spec fn blank(s: Seq<char>) -> bool {
    forall|i: int| 0 <= i < s.len() ==> is_space(#[trigger] s[i])
}

/// What trimming leaves has white space around it, and none at its ends.
pub proof fn law_trimmed_parts(s: Seq<char>)
    ensures
        exists|a: Seq<char>, b: Seq<char>|
            blank(a) && blank(b) && s == #[trigger] (a + trimmed(s) + b),
        trimmed(s).len() > 0 ==> !is_space(trimmed(s)[0]) && !is_space(trimmed(s).last()),
    decreases s.len(),
{
    let none = Seq::<char>::empty();
    if s.len() > 0 && is_space(s.first()) {
        let t = s.drop_first();
        law_trimmed_parts(t);
        let (a, b) = choose|a: Seq<char>, b: Seq<char>|
            blank(a) && blank(b) && t == #[trigger] (a + trimmed(t) + b);
        let c = seq![s[0]] + a;
        assert forall|i: int| 0 <= i < c.len() implies is_space(#[trigger] c[i]) by {
            if i > 0 {
                assert(c[i] == a[i - 1]);
            }
        }
        let m = trimmed(t);
        assert(trimmed(s) == m);
        assert(s =~= seq![s[0]] + t);
        assert(seq![s[0]] + (a + m + b) =~= c + m + b);
        assert(s == c + trimmed(s) + b);
    } else if s.len() > 0 && is_space(s.last()) {
        let t = s.drop_last();
        law_trimmed_parts(t);
        let (a, b) = choose|a: Seq<char>, b: Seq<char>|
            blank(a) && blank(b) && t == #[trigger] (a + trimmed(t) + b);
        let c = b + seq![s.last()];
        assert forall|i: int| 0 <= i < c.len() implies is_space(#[trigger] c[i]) by {
            if i < b.len() {
                assert(c[i] == b[i]);
            }
        }
        let m = trimmed(t);
        assert(trimmed(s) == m);
        assert(s =~= t + seq![s.last()]);
        assert((a + m + b) + seq![s.last()] =~= a + m + c);
        assert(s == a + trimmed(s) + c);
    } else {
        assert(s =~= none + trimmed(s) + none);
    }
}

} // verus!
