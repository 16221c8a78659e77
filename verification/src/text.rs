//! Characters, fixed-width decimal fields and lexicographic order.
//!
//! Identifiers are compared as plain strings, so everything the library
//! renders is built from fixed-width decimal fields.  This module gives the
//! character classes of the identifier grammar, the spec-level rendering
//! `num_str` together with its executable twin `render_num`, the decoding
//! `digits_val`, and the lexicographic order `lex_lt` with the lemmas that
//! the monotonicity proofs rest on.

use vstd::prelude::*;

verus! {

/// `10^w`, the number of distinct values of a `w`-digit decimal field.
pub open spec fn pow10(w: nat) -> nat
    decreases w,
{
    if w == 0 {
        1
    } else {
        10 * pow10((w - 1) as nat)
    }
}

pub open spec fn is_digit(c: char) -> bool {
    '0' <= c && c <= '9'
}

pub open spec fn is_lower_hex(c: char) -> bool {
    is_digit(c) || ('a' <= c && c <= 'f')
}

pub open spec fn is_node_char(c: char) -> bool {
    ('0' <= c && c <= '9') || ('a' <= c && c <= 'z') || ('A' <= c && c <= 'Z') || c == '_'
}

/// The decimal digit character for `d` in `0 ..= 9`.
pub open spec fn digit_char(d: int) -> char {
    if d == 0 { '0' }
    else if d == 1 { '1' }
    else if d == 2 { '2' }
    else if d == 3 { '3' }
    else if d == 4 { '4' }
    else if d == 5 { '5' }
    else if d == 6 { '6' }
    else if d == 7 { '7' }
    else if d == 8 { '8' }
    else { '9' }
}

/// The lowercase hexadecimal digit character for `d` in `0 ..= 15`.
pub open spec fn hex_char(d: int) -> char {
    if d < 10 { digit_char(d) }
    else if d == 10 { 'a' }
    else if d == 11 { 'b' }
    else if d == 12 { 'c' }
    else if d == 13 { 'd' }
    else if d == 14 { 'e' }
    else { 'f' }
}

/// The numeric value of a decimal digit character.
pub open spec fn digit_val(c: char) -> int {
    c as int - '0' as int
}

/// `n` rendered as exactly `w` decimal digits, zero-padded, keeping only the
/// low `w` digits of `n`.
pub open spec fn num_str(n: nat, w: nat) -> Seq<char>
    decreases w,
{
    if w == 0 {
        Seq::empty()
    } else {
        num_str(n / 10, (w - 1) as nat).push(digit_char((n % 10) as int))
    }
}

pub open spec fn all_digits(s: Seq<char>) -> bool {
    forall|i: int| 0 <= i < s.len() ==> is_digit(#[trigger] s[i])
}

pub open spec fn all_lower_hex(s: Seq<char>) -> bool {
    forall|i: int| 0 <= i < s.len() ==> is_lower_hex(#[trigger] s[i])
}

pub open spec fn all_node_chars(s: Seq<char>) -> bool {
    forall|i: int| 0 <= i < s.len() ==> is_node_char(#[trigger] s[i])
}

/// The number denoted by a string of decimal digits, most significant first.
pub open spec fn digits_val(s: Seq<char>) -> int
    decreases s.len(),
{
    if s.len() == 0 {
        0
    } else {
        digits_val(s.drop_last()) * 10 + digit_val(s.last())
    }
}

/// Strict lexicographic order on character sequences, the order Rust gives
/// plain ASCII strings.
pub open spec fn lex_lt(a: Seq<char>, b: Seq<char>) -> bool
    decreases a.len(),
{
    if b.len() == 0 {
        false
    } else if a.len() == 0 {
        true
    } else if a[0] < b[0] {
        true
    } else if a[0] == b[0] {
        lex_lt(a.skip(1), b.skip(1))
    } else {
        false
    }
}

pub proof fn lemma_num_str_len(n: nat, w: nat)
    ensures
        num_str(n, w).len() == w,
        all_digits(num_str(n, w)),
    decreases w,
{
    if w > 0 {
        lemma_num_str_len(n / 10, (w - 1) as nat);
        let s = num_str(n, w);
        let p = num_str(n / 10, (w - 1) as nat);
        assert forall|i: int| 0 <= i < s.len() implies is_digit(#[trigger] s[i]) by {
            if i < p.len() {
                assert(s[i] == p[i]);
            }
        }
    }
}

/// Rendering then decoding a `w`-digit field recovers the value, for values
/// that fit in `w` digits.
pub proof fn lemma_num_str_val(n: nat, w: nat)
    requires
        n < pow10(w),
    ensures
        digits_val(num_str(n, w)) == n,
    decreases w,
{
    if w == 0 {
        assert(num_str(n, w) =~= Seq::<char>::empty());
    } else {
        lemma_num_str_val(n / 10, (w - 1) as nat);
        let s = num_str(n, w);
        let p = num_str(n / 10, (w - 1) as nat);
        assert(s.drop_last() =~= p);
        assert(digit_val(digit_char((n % 10) as int)) == n % 10);
        assert(digits_val(s) == digits_val(p) * 10 + n % 10);
    }
}

/// Rendering is strictly monotone on `w`-digit values: the string order
/// agrees with the numeric order.
pub proof fn lemma_num_str_monotone(n1: nat, n2: nat, w: nat)
    requires
        n1 < n2,
        n2 < pow10(w),
    ensures
        lex_lt(num_str(n1, w), num_str(n2, w)),
    decreases w,
{
    lemma_num_str_len(n1, w);
    lemma_num_str_len(n2, w);
    let a = num_str(n1, w);
    let b = num_str(n2, w);
    let pa = num_str(n1 / 10, (w - 1) as nat);
    let pb = num_str(n2 / 10, (w - 1) as nat);
    if n1 / 10 == n2 / 10 {
        assert(n1 % 10 < n2 % 10);
        assert(digit_char((n1 % 10) as int) < digit_char((n2 % 10) as int));
        lemma_lex_lt_last(pa, pb, digit_char((n1 % 10) as int), digit_char((n2 % 10) as int));
    } else {
        assert(n1 / 10 < n2 / 10);
        assert(n2 / 10 < pow10((w - 1) as nat)) by {
            assert(pow10(w) == 10 * pow10((w - 1) as nat));
        }
        lemma_num_str_monotone(n1 / 10, n2 / 10, (w - 1) as nat);
        lemma_num_str_len(n1 / 10, (w - 1) as nat);
        lemma_num_str_len(n2 / 10, (w - 1) as nat);
        lemma_lex_lt_append(pa, pb, seq![digit_char((n1 % 10) as int)], seq![digit_char((n2 % 10) as int)]);
        assert(pa + seq![digit_char((n1 % 10) as int)] =~= a);
        assert(pb + seq![digit_char((n2 % 10) as int)] =~= b);
    }
}

/// Pushing a smaller last character onto equal prefixes gives a smaller string.
pub proof fn lemma_lex_lt_last(p: Seq<char>, q: Seq<char>, c: char, d: char)
    requires
        p =~= q,
        c < d,
    ensures
        lex_lt(p.push(c), q.push(d)),
    decreases p.len(),
{
    if p.len() == 0 {
        assert(p.push(c)[0] == c);
    } else {
        lemma_lex_lt_last(p.skip(1), q.skip(1), c, d);
        assert(p.push(c).skip(1) =~= p.skip(1).push(c));
        assert(q.push(d).skip(1) =~= q.skip(1).push(d));
    }
}

/// A strict difference inside equal-length prefixes decides the comparison,
/// whatever follows.
pub proof fn lemma_lex_lt_append(a: Seq<char>, b: Seq<char>, x: Seq<char>, y: Seq<char>)
    requires
        a.len() == b.len(),
        lex_lt(a, b),
    ensures
        lex_lt(a + x, b + y),
    decreases a.len(),
{
    assert(a.len() > 0);
    if a[0] == b[0] {
        lemma_lex_lt_append(a.skip(1), b.skip(1), x, y);
        assert((a + x).skip(1) =~= a.skip(1) + x);
        assert((b + y).skip(1) =~= b.skip(1) + y);
    }
    assert((a + x)[0] == a[0]);
    assert((b + y)[0] == b[0]);
}

/// A common prefix does not affect the comparison of what follows.
pub proof fn lemma_lex_lt_common_prefix(p: Seq<char>, x: Seq<char>, y: Seq<char>)
    requires
        lex_lt(x, y),
    ensures
        lex_lt(p + x, p + y),
    decreases p.len(),
{
    if p.len() == 0 {
        assert(p + x =~= x);
        assert(p + y =~= y);
    } else {
        lemma_lex_lt_common_prefix(p.skip(1), x, y);
        assert((p + x).skip(1) =~= p.skip(1) + x);
        assert((p + y).skip(1) =~= p.skip(1) + y);
        assert((p + x)[0] == p[0]);
        assert((p + y)[0] == p[0]);
        assert(y.len() > 0);
    }
}

/// The one-character string for the hexadecimal digit `d`.
pub fn digit_str(d: u64) -> (r: &'static str)
    requires
        d < 16,
    ensures
        r@ =~= seq![hex_char(d as int)],
{
    proof {
        reveal_strlit("0");
        reveal_strlit("1");
        reveal_strlit("2");
        reveal_strlit("3");
        reveal_strlit("4");
        reveal_strlit("5");
        reveal_strlit("6");
        reveal_strlit("7");
        reveal_strlit("8");
        reveal_strlit("9");
        reveal_strlit("a");
        reveal_strlit("b");
        reveal_strlit("c");
        reveal_strlit("d");
        reveal_strlit("e");
        reveal_strlit("f");
    }
    if d == 0 { "0" }
    else if d == 1 { "1" }
    else if d == 2 { "2" }
    else if d == 3 { "3" }
    else if d == 4 { "4" }
    else if d == 5 { "5" }
    else if d == 6 { "6" }
    else if d == 7 { "7" }
    else if d == 8 { "8" }
    else if d == 9 { "9" }
    else if d == 10 { "a" }
    else if d == 11 { "b" }
    else if d == 12 { "c" }
    else if d == 13 { "d" }
    else if d == 14 { "e" }
    else { "f" }
}

/// Renders `n` as exactly `w` zero-padded decimal digits.
pub fn render_num(n: u64, w: usize) -> (r: String)
    ensures
        r@ =~= num_str(n as nat, w as nat),
        r@.len() == w,
    decreases w,
{
    proof {
        lemma_num_str_len(n as nat, w as nat);
    }
    if w == 0 {
        String::new()
    } else {
        let mut s = render_num(n / 10, w - 1);
        let d = n % 10;
        s.append(digit_str(d));
        proof {
            assert(s@ =~= num_str((n / 10) as nat, (w - 1) as nat).push(digit_char((n % 10) as int)));
        }
        s
    }
}

/// Decodes the decimal field `s[from .. to]`, exactly as `u32::from_str`
/// would: all characters must be digits and the value must fit.
pub fn scan_field_u32(s: &str, from: usize, to: usize) -> (r: Option<u32>)
    requires
        from <= to <= s@.len(),
    ensures
        ({
            let sub = s@.subrange(from as int, to as int);
            match r {
                Some(v) => all_digits(sub) && v as int == digits_val(sub),
                None => !all_digits(sub) || digits_val(sub) > u32::MAX,
            }
        }),
{
    let ghost sub = s@.subrange(from as int, to as int);
    let mut i: usize = from;
    let mut acc: u64 = 0;
    while i < to
        invariant
            from <= i <= to <= s@.len(),
            sub =~= s@.subrange(from as int, to as int),
            all_digits(s@.subrange(from as int, i as int)),
            digits_val(s@.subrange(from as int, i as int)) <= u32::MAX
                ==> acc == digits_val(s@.subrange(from as int, i as int)),
            digits_val(s@.subrange(from as int, i as int)) > u32::MAX ==> acc == 0x1_0000_0000,
            acc <= 0x1_0000_0000,
            digits_val(s@.subrange(from as int, i as int)) >= 0,
        decreases to - i,
    {
        let c = s.get_char(i);
        if !(c >= '0' && c <= '9') {
            proof {
                assert(sub[i - from] == s@[i as int]);
                assert(!is_digit(sub[i - from]));
            }
            return None;
        }
        let d: u64 = (c as u32 as u64) - 48;
        proof {
            let p = s@.subrange(from as int, i as int);
            let t = s@.subrange(from as int, i as int + 1);
            assert(t.drop_last() =~= p);
            assert(t.last() == s@[i as int]);
            assert(d == digit_val(s@[i as int]));
            assert(digits_val(t) == digits_val(p) * 10 + d);
            assert(all_digits(t)) by {
                assert(forall|j: int| 0 <= j < t.len() - 1 ==> #[trigger] t[j] == p[j]);
            }
        }
        let nv: u64 = acc * 10 + d;
        let na: u64 = if nv > 0x1_0000_0000 { 0x1_0000_0000 } else { nv };
        proof {
            let p = s@.subrange(from as int, i as int);
            let t = s@.subrange(from as int, i as int + 1);
            let dvp = digits_val(p);
            let dvt = digits_val(t);
            assert(0 <= d <= 9);
            if dvp <= u32::MAX {
                assert(nv == dvt);
                if dvt <= u32::MAX {
                    assert(na == dvt);
                } else {
                    assert(dvt >= 0x1_0000_0000);
                    assert(na == 0x1_0000_0000);
                }
            } else {
                assert(acc == 0x1_0000_0000);
                assert(nv > 0x1_0000_0000);
                assert(dvt == dvp * 10 + d);
                assert(dvp * 10 >= dvp) by (nonlinear_arith)
                    requires dvp >= 0;
                assert(dvt > u32::MAX);
                assert(na == 0x1_0000_0000);
            }
        }
        acc = na;
        i = i + 1;
    }
    proof {
        assert(s@.subrange(from as int, i as int) =~= sub);
    }
    if acc > 0xFFFF_FFFF {
        None
    } else {
        Some(acc as u32)
    }
}

/// True iff every character of `s[from .. to]` is a lowercase hex digit.
pub fn check_lower_hex(s: &str, from: usize, to: usize) -> (r: bool)
    requires
        from <= to <= s@.len(),
    ensures
        r == all_lower_hex(s@.subrange(from as int, to as int)),
{
    let ghost sub = s@.subrange(from as int, to as int);
    let mut i: usize = from;
    while i < to
        invariant
            from <= i <= to <= s@.len(),
            sub =~= s@.subrange(from as int, to as int),
            all_lower_hex(s@.subrange(from as int, i as int)),
        decreases to - i,
    {
        let c = s.get_char(i);
        if !((c >= '0' && c <= '9') || (c >= 'a' && c <= 'f')) {
            proof {
                assert(sub[i - from] == s@[i as int]);
            }
            return false;
        }
        proof {
            assert(s@.subrange(from as int, i as int + 1) =~=
                s@.subrange(from as int, i as int).push(s@[i as int]));
            assert(forall|j: int| 0 <= j < i + 1 - from ==>
                is_lower_hex(#[trigger] s@.subrange(from as int, i as int + 1)[j]));
        }
        i = i + 1;
    }
    proof {
        assert(s@.subrange(from as int, i as int) =~= sub);
    }
    true
}

/// True iff `s[from .. to]` is non-empty and all node characters
/// (ASCII letters, digits and underscore).
pub fn check_node_chars(s: &str, from: usize, to: usize) -> (r: bool)
    requires
        from <= to <= s@.len(),
    ensures
        r == (to > from && all_node_chars(s@.subrange(from as int, to as int))),
{
    if to == from {
        return false;
    }
    let ghost sub = s@.subrange(from as int, to as int);
    let mut i: usize = from;
    while i < to
        invariant
            from <= i <= to <= s@.len(),
            sub =~= s@.subrange(from as int, to as int),
            all_node_chars(s@.subrange(from as int, i as int)),
        decreases to - i,
    {
        let c = s.get_char(i);
        if !((c >= '0' && c <= '9') || (c >= 'a' && c <= 'z') || (c >= 'A' && c <= 'Z') || c == '_') {
            proof {
                assert(sub[i - from] == s@[i as int]);
            }
            return false;
        }
        proof {
            assert(s@.subrange(from as int, i as int + 1) =~=
                s@.subrange(from as int, i as int).push(s@[i as int]));
            assert(forall|j: int| 0 <= j < i + 1 - from ==>
                is_node_char(#[trigger] s@.subrange(from as int, i as int + 1)[j]));
        }
        i = i + 1;
    }
    proof {
        assert(s@.subrange(from as int, i as int) =~= sub);
    }
    true
}

/// A digit string of length `w` denotes a value below `10^w`.
pub proof fn lemma_digits_val_bound(s: Seq<char>)
    requires
        all_digits(s),
    ensures
        0 <= digits_val(s) < pow10(s.len()),
    decreases s.len(),
{
    if s.len() == 0 {
    } else {
        let p = s.drop_last();
        assert(all_digits(p)) by {
            assert(forall|i: int| 0 <= i < p.len() ==> #[trigger] p[i] == s[i]);
        }
        lemma_digits_val_bound(p);
        assert(is_digit(s.last()));
        assert(0 <= digit_val(s.last()) <= 9);
        assert(pow10(s.len()) == 10 * pow10((s.len() - 1) as nat));
    }
}

/// True iff every character of `s[from .. to]` is a decimal digit.
pub fn check_digits(s: &str, from: usize, to: usize) -> (r: bool)
    requires
        from <= to <= s@.len(),
    ensures
        r == all_digits(s@.subrange(from as int, to as int)),
{
    let ghost sub = s@.subrange(from as int, to as int);
    let mut i: usize = from;
    while i < to
        invariant
            from <= i <= to <= s@.len(),
            sub =~= s@.subrange(from as int, to as int),
            all_digits(s@.subrange(from as int, i as int)),
        decreases to - i,
    {
        let c = s.get_char(i);
        if !(c >= '0' && c <= '9') {
            proof {
                assert(sub[i - from] == s@[i as int]);
            }
            return false;
        }
        proof {
            assert(s@.subrange(from as int, i as int + 1) =~=
                s@.subrange(from as int, i as int).push(s@[i as int]));
            assert(forall|j: int| 0 <= j < i + 1 - from ==>
                is_digit(#[trigger] s@.subrange(from as int, i as int + 1)[j]));
        }
        i = i + 1;
    }
    proof {
        assert(s@.subrange(from as int, i as int) =~= sub);
    }
    true
}

pub proof fn lemma_pow10_monotone(a: nat, b: nat)
    requires
        a <= b,
    ensures
        pow10(a) <= pow10(b),
    decreases b,
{
    if a < b {
        lemma_pow10_monotone(a, (b - 1) as nat);
        assert(pow10(b) == 10 * pow10((b - 1) as nat));
    }
}

pub proof fn lemma_pow10_18()
    ensures
        pow10(18) == 0x0DE0B6B3A7640000,
{
    assert(pow10(0) == 1);
    assert(pow10(1) == 10 * pow10(0));
    assert(pow10(2) == 10 * pow10(1));
    assert(pow10(3) == 10 * pow10(2));
    assert(pow10(4) == 10 * pow10(3));
    assert(pow10(5) == 10 * pow10(4));
    assert(pow10(6) == 10 * pow10(5));
    assert(pow10(7) == 10 * pow10(6));
    assert(pow10(8) == 10 * pow10(7));
    assert(pow10(9) == 10 * pow10(8));
    assert(pow10(10) == 10 * pow10(9));
    assert(pow10(11) == 10 * pow10(10));
    assert(pow10(12) == 10 * pow10(11));
    assert(pow10(13) == 10 * pow10(12));
    assert(pow10(14) == 10 * pow10(13));
    assert(pow10(15) == 10 * pow10(14));
    assert(pow10(16) == 10 * pow10(15));
    assert(pow10(17) == 10 * pow10(16));
    assert(pow10(18) == 10 * pow10(17));
}

/// `10^w` as an `i64`; the width bound keeps the counter inside the type.
pub fn pow10_i64(w: usize) -> (r: i64)
    requires
        w <= 18,
    ensures
        r == pow10(w as nat),
{
    let mut i: usize = 0;
    let mut m: i64 = 1;
    while i < w
        invariant
            i <= w <= 18,
            m == pow10(i as nat),
        decreases w - i,
    {
        proof {
            lemma_pow10_monotone(i as nat + 1, 18);
            lemma_pow10_18();
            assert(pow10(i as nat + 1) == 10 * pow10(i as nat));
        }
        m = m * 10;
        i = i + 1;
    }
    m
}

/// Distinct hexadecimal digit values render as distinct characters.
pub proof fn lemma_hex_char_injective(p: int, q: int)
    requires
        0 <= p < 16,
        0 <= q < 16,
        hex_char(p) == hex_char(q),
    ensures
        p == q,
{
}

/// Every hexadecimal digit character is lowercase hex.
pub proof fn lemma_hex_char_lower(p: int)
    requires
        0 <= p < 16,
    ensures
        is_lower_hex(hex_char(p)),
{
}

} // verus!
