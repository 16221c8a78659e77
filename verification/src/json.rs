//! The canonical JSON dialect of the manifest.
//!
//! Manifests travel as one flat JSON object with a fixed key order and no
//! whitespace, so the encoding of a manifest is a function of its fields and
//! the codec round-trips exactly.  Strings escape `"` and `\` with a
//! backslash and control characters as `\u00XX`, as JSON requires, and
//! carry every other character as it is; numbers are plain decimals without
//! leading zeros.  The parser accepts exactly what the encoder emits:
//! whatever it returns encodes back to the input.

use vstd::prelude::*;

use crate::text::{
    all_digits, digit_char, digits_val, hex_char, is_digit, is_lower_hex, lemma_digits_val_bound,
};

verus! {

/// The characters a JSON string block escapes: the quote, the backslash,
/// and the control range, as JSON requires.
pub open spec fn needs_escape(c: char) -> bool {
    c == '"' || c == '\\' || (c as u32) < 32
}

/// The escape block of one character: a two-character escape for the quote
/// and the backslash, a `\u00XX` escape for a control character.
pub open spec fn esc_char(c: char) -> Seq<char> {
    if c == '"' || c == '\\' {
        seq!['\\', c]
    } else if (c as u32) < 32 {
        seq!['\\', 'u', '0', '0', hex_char((c as u32) as int / 16),
            hex_char((c as u32) as int % 16)]
    } else {
        seq![c]
    }
}

/// A string body with `"` and `\` escaped.
pub open spec fn json_escape(s: Seq<char>) -> Seq<char>
    decreases s.len(),
{
    if s.len() == 0 {
        Seq::empty()
    } else {
        esc_char(s[0]) + json_escape(s.skip(1))
    }
}

/// A JSON string: quote, escaped body, quote.
pub open spec fn jstring(s: Seq<char>) -> Seq<char> {
    seq!['"'] + json_escape(s) + seq!['"']
}

/// A decimal number without leading zeros.
pub open spec fn dec_str(n: nat) -> Seq<char>
    decreases n,
{
    if n < 10 {
        seq![digit_char(n as int)]
    } else {
        dec_str(n / 10).push(digit_char((n % 10) as int))
    }
}

/// Escaping distributes over appending one character.
pub proof fn lemma_escape_push(s: Seq<char>, c: char)
    ensures
        json_escape(s.push(c)) == json_escape(s) + esc_char(c),
    decreases s.len(),
{
    if s.len() == 0 {
        assert(s.push(c).skip(1) =~= Seq::<char>::empty());
        assert(s.push(c)[0] == c);
        assert(json_escape(s.push(c).skip(1)) == Seq::<char>::empty());
        assert(json_escape(s.push(c)) == esc_char(c) + json_escape(s.push(c).skip(1)));
        assert(esc_char(c) + Seq::<char>::empty() =~= esc_char(c));
        assert(json_escape(s) == Seq::<char>::empty());
        assert(json_escape(s) + esc_char(c) =~= esc_char(c));
    } else {
        lemma_escape_push(s.skip(1), c);
        assert(s.push(c).skip(1) =~= s.skip(1).push(c));
        assert(s.push(c)[0] == s[0]);
        assert(json_escape(s.push(c)) == esc_char(s[0]) + (json_escape(s.skip(1)) + esc_char(c)));
        assert(esc_char(s[0]) + (json_escape(s.skip(1)) + esc_char(c))
            =~= (esc_char(s[0]) + json_escape(s.skip(1))) + esc_char(c));
    }
}

/// An escaped body followed by a bare quote determines the body: the bare
/// quote cannot sit inside an escaped block, so two such decompositions of
/// one string agree.
pub proof fn lemma_escape_quote_align(a: Seq<char>, b: Seq<char>, x: Seq<char>, y: Seq<char>)
    requires
        json_escape(a) + seq!['"'] + x == json_escape(b) + seq!['"'] + y,
    ensures
        a == b,
        x == y,
    decreases a.len(),
{
    let s = json_escape(a) + seq!['"'] + x;
    if a.len() == 0 {
        assert(json_escape(a) == Seq::<char>::empty());
        assert(s[0] == '"');
        if b.len() > 0 {
            assert(json_escape(b) == esc_char(b[0]) + json_escape(b.skip(1)));
            assert(s[0] == esc_char(b[0])[0]);
            assert(false);
        }
        assert(json_escape(b) == Seq::<char>::empty());
        assert(x =~= y) by {
            assert(s == json_escape(b) + seq!['"'] + y);
            assert(s.len() == 1 + x.len());
            assert(s.len() == 1 + y.len());
            assert(forall|i: int| 0 <= i < x.len() ==> #[trigger] x[i] == s[i + 1]);
            assert(forall|i: int| 0 <= i < y.len() ==> #[trigger] y[i] == s[i + 1]);
        }
    } else if b.len() == 0 {
        assert(json_escape(b) == Seq::<char>::empty());
        assert(s == json_escape(b) + seq!['"'] + y);
        assert(s[0] == '"');
        assert(json_escape(a) == esc_char(a[0]) + json_escape(a.skip(1)));
        assert(s[0] == esc_char(a[0])[0]);
        assert(false);
    } else {
        let ea = esc_char(a[0]);
        let eb = esc_char(b[0]);
        assert(json_escape(a) == ea + json_escape(a.skip(1)));
        assert(json_escape(b) == eb + json_escape(b.skip(1)));
        assert(s == json_escape(b) + seq!['"'] + y);
        assert(s[0] == ea[0]);
        assert(s[0] == eb[0]);
        if needs_escape(a[0]) && needs_escape(b[0]) {
            assert(s[1] == ea[1]);
            assert(s[1] == eb[1]);
        }
        if needs_escape(a[0]) {
            assert(ea[0] == '\\');
            assert(!needs_escape(b[0]) ==> eb[0] == b[0] && b[0] != '\\');
            assert(needs_escape(b[0]));
            assert(s[1] == ea[1] && s[1] == eb[1]);
            if a[0] == '"' || a[0] == '\\' {
                assert(ea[1] == a[0]);
                assert(b[0] == '"' || b[0] == '\\') by {
                    if (b[0] as u32) < 32 && b[0] != '"' && b[0] != '\\' {
                        assert(eb[1] == 'u');
                    }
                }
                assert(a[0] == b[0]);
            } else {
                assert(ea[1] == 'u');
                assert(!(b[0] == '"' || b[0] == '\\')) by {
                    if b[0] == '"' || b[0] == '\\' {
                        assert(eb[1] == b[0]);
                    }
                }
                assert((a[0] as u32) < 32 && (b[0] as u32) < 32);
                assert(s[4] == ea[4] && s[5] == ea[5]);
                assert(s[4] == eb[4] && s[5] == eb[5]);
                let av = (a[0] as u32) as int;
                let bv = (b[0] as u32) as int;
                assert(hex_char(av / 16) == hex_char(bv / 16));
                assert(hex_char(av % 16) == hex_char(bv % 16));
                crate::tstamp::lemma_split_div(av, av, 16);
                crate::tstamp::lemma_split_div(bv, bv, 16);
                crate::text::lemma_hex_char_injective(av / 16, bv / 16);
                crate::text::lemma_hex_char_injective(av % 16, bv % 16);
                assert(a[0] as u32 == b[0] as u32);
                vstd::utf8::char_u32_cast(a[0], a[0] as u32);
                vstd::utf8::char_u32_cast(b[0], b[0] as u32);
                assert(a[0] == b[0]);
            }
        } else {
            assert(ea[0] == a[0] && a[0] != '\\');
            assert(needs_escape(b[0]) ==> eb[0] == '\\');
            assert(!needs_escape(b[0]));
            assert(a[0] == b[0]);
        }
        assert(ea == eb);
        let n = ea.len() as int;
        assert(json_escape(a.skip(1)) + seq!['"'] + x =~= s.skip(n)) by {
            assert(json_escape(a) =~= ea + json_escape(a.skip(1)));
        }
        assert(json_escape(b.skip(1)) + seq!['"'] + y =~= s.skip(n)) by {
            assert(json_escape(b) =~= eb + json_escape(b.skip(1)));
            assert(json_escape(b) + seq!['"'] + y =~= s);
        }
        lemma_escape_quote_align(a.skip(1), b.skip(1), x, y);
        assert(a =~= seq![a[0]] + a.skip(1));
        assert(b =~= seq![b[0]] + b.skip(1));
    }
}

/// Two JSON strings starting at the same place in one text coincide, and so
/// does what follows them.
pub proof fn lemma_jstring_align(a: Seq<char>, b: Seq<char>, x: Seq<char>, y: Seq<char>)
    requires
        jstring(a) + x == jstring(b) + y,
    ensures
        a == b,
        x == y,
{
    let s = jstring(a) + x;
    assert(json_escape(a) + seq!['"'] + x =~= s.skip(1)) by {
        assert(jstring(a) =~= seq!['"'] + (json_escape(a) + seq!['"']));
    }
    assert(json_escape(b) + seq!['"'] + y =~= s.skip(1)) by {
        assert(jstring(b) + y =~= s);
        assert(jstring(b) =~= seq!['"'] + (json_escape(b) + seq!['"']));
    }
    lemma_escape_quote_align(a, b, x, y);
}

/// A bare quote marks the end of an escaped body: when an escaped body
/// followed by a bare quote is read against another escaped body, the
/// second body ends first, and its continuation is neither empty nor a
/// broken escape.
pub proof fn lemma_escape_blocked(v: Seq<char>, b: Seq<char>, x: Seq<char>, z: Seq<char>)
    requires
        json_escape(v) + seq!['"'] + x == json_escape(b) + z,
    ensures
        z.len() > 0,
        z[0] == '"' || z[0] == '\\' || (z[0] as u32) >= 32,
        z[0] == '\\' ==> z.len() >= 2 && (z[1] == '"' || z[1] == '\\' || (z[1] == 'u'
            && z.len() >= 6 && z[2] == '0' && z[3] == '0' && (z[4] == '0' || z[4] == '1')
            && is_lower_hex(z[5]))),
    decreases v.len(),
{
    let s = json_escape(v) + seq!['"'] + x;
    if v.len() == 0 {
        assert(json_escape(v) == Seq::<char>::empty());
        assert(s[0] == '"');
        if b.len() == 0 {
            assert(json_escape(b) == Seq::<char>::empty());
            assert(z =~= s);
            assert(z[0] == '"');
        } else {
            assert(json_escape(b) == esc_char(b[0]) + json_escape(b.skip(1)));
            assert(s == json_escape(b) + z);
            assert(s[0] == esc_char(b[0])[0]);
            assert(false);
        }
    } else {
        let ea = esc_char(v[0]);
        assert(json_escape(v) == ea + json_escape(v.skip(1)));
        if b.len() == 0 {
            assert(json_escape(b) == Seq::<char>::empty());
            assert(z =~= s);
            assert(s[0] == ea[0]);
            if v[0] == '"' || v[0] == '\\' {
                assert(z[0] == '\\');
                assert(s[1] == ea[1]);
                assert(z[1] == v[0]);
            } else if (v[0] as u32) < 32 {
                assert(z[0] == '\\');
                assert(s[1] == ea[1] && s[2] == ea[2] && s[3] == ea[3] && s[4] == ea[4]
                    && s[5] == ea[5]);
                assert(z[1] == 'u' && z[2] == '0' && z[3] == '0');
                let cv = (v[0] as u32) as int;
                crate::tstamp::lemma_split_div(cv, cv, 16);
                assert(z[4] == hex_char(cv / 16));
                assert(cv / 16 == 0 || cv / 16 == 1);
                assert(z[4] == '0' || z[4] == '1');
                crate::text::lemma_hex_char_lower(cv % 16);
                assert(is_lower_hex(z[5]));
            } else {
                assert(z[0] == v[0] && v[0] != '\\');
            }
        } else {
            let eb = esc_char(b[0]);
            assert(json_escape(b) == eb + json_escape(b.skip(1)));
            assert(s == json_escape(b) + z);
            assert(s[0] == ea[0]);
            assert(s[0] == eb[0]);
            if needs_escape(v[0]) {
                assert(ea[0] == '\\');
                assert(!needs_escape(b[0]) ==> eb[0] == b[0] && b[0] != '\\');
                assert(needs_escape(b[0]));
                assert(s[1] == ea[1] && s[1] == eb[1]);
                if v[0] == '"' || v[0] == '\\' {
                    assert(ea[1] == v[0]);
                    assert(b[0] == '"' || b[0] == '\\') by {
                        if (b[0] as int) < 32 && b[0] != '"' && b[0] != '\\' {
                            assert(eb[1] == 'u');
                        }
                    }
                    assert(v[0] == b[0]);
                } else {
                    assert(ea[1] == 'u');
                    assert(!(b[0] == '"' || b[0] == '\\')) by {
                        if b[0] == '"' || b[0] == '\\' {
                            assert(eb[1] == b[0]);
                        }
                    }
                    assert((v[0] as u32) < 32 && (b[0] as u32) < 32);
                    assert(s[4] == ea[4] && s[5] == ea[5]);
                    assert(s[4] == eb[4] && s[5] == eb[5]);
                    let cv = (v[0] as u32) as int;
                    let dv = (b[0] as u32) as int;
                    crate::tstamp::lemma_split_div(cv, cv, 16);
                    crate::tstamp::lemma_split_div(dv, dv, 16);
                    crate::text::lemma_hex_char_injective(cv / 16, dv / 16);
                    crate::text::lemma_hex_char_injective(cv % 16, dv % 16);
                    assert(v[0] as u32 == b[0] as u32);
                    vstd::utf8::char_u32_cast(v[0], v[0] as u32);
                    vstd::utf8::char_u32_cast(b[0], b[0] as u32);
                    assert(v[0] == b[0]);
                }
            } else {
                assert(ea[0] == v[0] && v[0] != '\\');
                assert(needs_escape(b[0]) ==> eb[0] == '\\');
                assert(!needs_escape(b[0]));
                assert(v[0] == b[0]);
            }
            assert(ea == eb);
            let k = ea.len() as int;
            assert(json_escape(v.skip(1)) + seq!['"'] + x =~= s.skip(k));
            assert(json_escape(b.skip(1)) + z =~= s.skip(k));
            lemma_escape_blocked(v.skip(1), b.skip(1), x, z);
        }
    }
}

/// A longer digit run denotes at least as much as any of its prefixes.
pub proof fn lemma_digits_val_prefix(t: Seq<char>, m: int)
    requires
        all_digits(t),
        0 <= m <= t.len(),
    ensures
        digits_val(t) >= digits_val(t.subrange(0, m)),
    decreases t.len(),
{
    lemma_digits_val_bound(t);
    if m == t.len() {
        assert(t.subrange(0, m) =~= t);
    } else {
        let p = t.drop_last();
        assert(all_digits(p)) by {
            assert(forall|i: int| 0 <= i < p.len() ==> #[trigger] p[i] == t[i]);
        }
        lemma_digits_val_bound(p);
        assert(digits_val(t) == digits_val(p) * 10 + crate::text::digit_val(t.last()));
        assert(crate::text::is_digit(t.last()));
        assert(digits_val(t) >= digits_val(p));
        assert(p.subrange(0, m) =~= t.subrange(0, m));
        lemma_digits_val_prefix(p, m);
    }
}

/// Shape of a plain decimal: digits only, no leading zero unless the number
/// is zero, and decoding recovers the value.
pub proof fn lemma_dec_str_shape(n: nat)
    ensures
        dec_str(n).len() >= 1,
        all_digits(dec_str(n)),
        digits_val(dec_str(n)) == n,
        n >= 10 ==> dec_str(n)[0] != '0',
        n < 10 ==> dec_str(n).len() == 1,
    decreases n,
{
    if n < 10 {
        assert(dec_str(n).drop_last() =~= Seq::<char>::empty());
        assert(digits_val(dec_str(n).drop_last()) == 0);
        assert(dec_str(n).last() == digit_char(n as int));
        assert(crate::text::digit_val(digit_char(n as int)) == n);
    } else {
        lemma_dec_str_shape(n / 10);
        let s = dec_str(n);
        let p = dec_str(n / 10);
        assert(s.drop_last() =~= p);
        assert(s[0] == p[0]);
        assert(s.last() == digit_char((n % 10) as int));
        assert(crate::text::digit_val(digit_char((n % 10) as int)) == n % 10);
        assert(digits_val(s) == digits_val(p) * 10 + crate::text::digit_val(s.last()));
        assert(all_digits(s)) by {
            assert(forall|i: int| 0 <= i < s.len() - 1 ==> #[trigger] s[i] == p[i]);
            assert(is_digit(s[s.len() - 1]));
        }
        if n / 10 < 10 {
            assert(p[0] == digit_char((n / 10) as int));
            assert(n / 10 >= 1);
        }
    }
}

/// Two plain decimals starting at the same place, each followed by a
/// non-digit (or the end), coincide.
pub proof fn lemma_dec_align(n1: nat, n2: nat, x: Seq<char>, y: Seq<char>)
    requires
        dec_str(n1) + x == dec_str(n2) + y,
        x.len() > 0 ==> !is_digit(x[0]),
        y.len() > 0 ==> !is_digit(y[0]),
    ensures
        n1 == n2,
        x == y,
{
    lemma_dec_str_shape(n1);
    lemma_dec_str_shape(n2);
    let s = dec_str(n1) + x;
    let l1 = dec_str(n1).len() as int;
    let l2 = dec_str(n2).len() as int;
    if l1 < l2 {
        assert(x.len() > 0);
        assert(s[l1] == x[0]);
        assert(s[l1] == dec_str(n2)[l1]);
        assert(false);
    }
    if l2 < l1 {
        assert(y.len() > 0);
        assert(s[l2] == y[0]);
        assert(s[l2] == dec_str(n1)[l2]);
        assert(false);
    }
    let t = dec_str(n2) + y;
    assert(s == t);
    assert(dec_str(n1) =~= s.subrange(0, l1));
    assert(dec_str(n2) =~= t.subrange(0, l2));
    assert(dec_str(n1) == dec_str(n2));
    assert(n1 == n2);
    assert(x =~= s.subrange(l1, s.len() as int));
    assert(y =~= t.subrange(l2, t.len() as int));
}

/// A non-empty digit run without a leading zero is the canonical decimal of
/// its value.
pub proof fn lemma_digits_canonical(t: Seq<char>)
    requires
        t.len() >= 1,
        all_digits(t),
        t.len() > 1 ==> t[0] != '0',
    ensures
        digits_val(t) >= 0,
        t == dec_str(digits_val(t) as nat),
    decreases t.len(),
{
    lemma_digits_val_bound(t);
    if t.len() == 1 {
        assert(digits_val(t) == digits_val(t.drop_last()) * 10 + crate::text::digit_val(t.last()));
        assert(t.drop_last() =~= Seq::<char>::empty());
        assert(digits_val(t) < 10);
        assert(dec_str(digits_val(t) as nat) =~= seq![digit_char(digits_val(t))]);
        assert(t =~= seq![t[0]]);
        assert(digit_char(crate::text::digit_val(t[0])) == t[0]);
    } else {
        let p = t.drop_last();
        assert(all_digits(p)) by {
            assert(forall|i: int| 0 <= i < p.len() ==> #[trigger] p[i] == t[i]);
        }
        assert(p[0] == t[0]);
        lemma_digits_canonical(p);
        lemma_digits_val_bound(p);
        let v = digits_val(t);
        let pv = digits_val(p);
        assert(v == pv * 10 + crate::text::digit_val(t.last()));
        assert(pv >= 1) by {
            lemma_leading_nonzero(p);
        }
        assert(v >= 10);
        assert(v as nat / 10 == pv);
        assert(v as nat % 10 == crate::text::digit_val(t.last()));
        assert(dec_str(v as nat) == dec_str(pv as nat).push(digit_char((v as nat % 10) as int)));
        assert(digit_char(crate::text::digit_val(t.last())) == t.last());
        assert(t =~= p.push(t.last()));
    }
}

/// A digit run with a non-zero leading digit denotes at least one.
proof fn lemma_leading_nonzero(t: Seq<char>)
    requires
        t.len() >= 1,
        all_digits(t),
        t[0] != '0',
    ensures
        digits_val(t) >= 1,
    decreases t.len(),
{
    lemma_digits_val_bound(t);
    if t.len() == 1 {
        assert(t.drop_last() =~= Seq::<char>::empty());
        assert(crate::text::digit_val(t[0]) >= 1);
    } else {
        let p = t.drop_last();
        assert(all_digits(p)) by {
            assert(forall|i: int| 0 <= i < p.len() ==> #[trigger] p[i] == t[i]);
        }
        assert(p[0] == t[0]);
        lemma_leading_nonzero(p);
        lemma_digits_val_bound(p);
        assert(digits_val(t) == digits_val(p) * 10 + crate::text::digit_val(t.last()));
    }
}

/// Appends the escaped body of `s`.
fn append_escaped(out: &mut String, s: &str)
    ensures
        final(out)@ == old(out)@ + json_escape(s@),
{
    proof {
        reveal_strlit("\\");
    }
    let ghost base = out@;
    let n = s.unicode_len();
    let mut i: usize = 0;
    while i < n
        invariant
            i <= n,
            n == s@.len(),
            out@ == base + json_escape(s@.subrange(0, i as int)),
        decreases n - i,
    {
        let c = s.get_char(i);
        let ghost pre = s@.subrange(0, i as int);
        if c == '"' {
            proof {
                reveal_strlit("\\\"");
            }
            out.append("\\\"");
        } else if c == '\\' {
            proof {
                reveal_strlit("\\\\");
            }
            out.append("\\\\");
        } else if (c as u32) < 32 {
            proof {
                reveal_strlit("\\u00");
                crate::tstamp::lemma_split_div((c as u32) as int, (c as u32) as int, 16);
            }
            out.append("\\u00");
            out.append(crate::text::digit_str(((c as u32) / 16) as u64));
            out.append(crate::text::digit_str(((c as u32) % 16) as u64));
        } else {
            crate::sys::push_char(out, c);
        }
        proof {
            lemma_escape_push(pre, c);
            assert(s@.subrange(0, i as int + 1) =~= pre.push(c));
            if c == '"' {
                assert("\\\""@ =~= esc_char(c));
            } else if c == '\\' {
                assert("\\\\"@ =~= esc_char(c));
            } else if (c as u32) < 32 {
                assert("\\u00"@ + seq![hex_char((c as u32) as int / 16)]
                    + seq![hex_char((c as u32) as int % 16)] =~= esc_char(c));
            }
            assert(out@ =~= base + json_escape(s@.subrange(0, i as int + 1)));
        }
        i = i + 1;
    }
    proof {
        assert(s@.subrange(0, n as int) =~= s@);
    }
}

/// Appends `s` as a JSON string.
pub fn append_jstring(out: &mut String, s: &str)
    ensures
        final(out)@ == old(out)@ + jstring(s@),
{
    proof {
        reveal_strlit("\"");
    }
    out.append("\"");
    append_escaped(out, s);
    out.append("\"");
    proof {
        assert(final(out)@ =~= old(out)@ + jstring(s@));
    }
}

/// Appends `n` as a plain decimal.
pub fn append_dec(out: &mut String, n: u64)
    ensures
        final(out)@ == old(out)@ + dec_str(n as nat),
    decreases n,
{
    if n < 10 {
        out.append(crate::text::digit_str(n));
        proof {
            assert(final(out)@ =~= old(out)@ + dec_str(n as nat));
        }
    } else {
        append_dec(out, n / 10);
        out.append(crate::text::digit_str(n % 10));
        proof {
            assert(final(out)@ =~= old(out)@ + dec_str(n as nat));
        }
    }
}

/// What it means for a JSON string to sit at `[i, j)` of a larger text.
proof fn lemma_jstring_decomp(s: Seq<char>, i: int, j: int, v: Seq<char>)
    requires
        0 <= i <= j <= s.len(),
        s.subrange(i, j) == jstring(v),
    ensures
        j - i >= 2,
        s[i] == '"',
        s.subrange(i + 1, j) == json_escape(v) + seq!['"'],
{
    assert(jstring(v).len() == 2 + json_escape(v).len());
    assert(s.subrange(i, j)[0] == s[i]);
    assert(jstring(v)[0] == '"');
    assert(s.subrange(i + 1, j) =~= json_escape(v) + seq!['"']) by {
        assert(forall|t: int| 0 <= t < j - (i + 1)
            ==> #[trigger] s.subrange(i + 1, j)[t] == s.subrange(i, j)[t + 1]);
        assert(forall|t: int| 0 <= t < json_escape(v).len()
            ==> #[trigger] (json_escape(v) + seq!['"'])[t] == jstring(v)[t + 1]);
        assert((json_escape(v) + seq!['"'])[json_escape(v).len() as int] == '"');
        assert(jstring(v)[jstring(v).len() - 1] == '"');
    }
}

/// At a broken escape no JSON string can start at `i`: the body consumed
/// so far continues with a backslash that no legal escape completes.
proof fn lemma_jstring_none_blocked(s: Seq<char>, i: int, k: int, acc: Seq<char>)
    requires
        0 <= i,
        i + 1 <= k < s.len(),
        s[i] == '"',
        s.subrange(i + 1, k) == json_escape(acc),
        ((s[k] as u32) < 32 && s[k] != '"') || (s[k] == '\\' && (k + 1 >= s.len()
            || (s[k + 1] != '"' && s[k + 1] != '\\' && (s[k + 1] != 'u' || k + 6 > s.len()
                || s[k + 2] != '0' || s[k + 3] != '0'
                || !(s[k + 4] == '0' || s[k + 4] == '1')
                || !is_lower_hex(s[k + 5]))))),
    ensures
        forall|v: Seq<char>, j: int| #![trigger s.subrange(i, j), jstring(v)]
            i <= j <= s.len() ==> s.subrange(i, j) != jstring(v),
{
    let n = s.len() as int;
    assert forall|v: Seq<char>, j: int| #![trigger s.subrange(i, j), jstring(v)]
        i <= j <= n implies s.subrange(i, j) != jstring(v) by {
        if s.subrange(i, j) == jstring(v) {
            lemma_jstring_decomp(s, i, j, v);
            lemma_subrange_cat(s, i + 1, j, n);
            lemma_subrange_cat(s, i + 1, k, n);
            let z = s.subrange(k, n);
            assert(json_escape(v) + seq!['"'] + s.subrange(j, n) == json_escape(acc) + z) by {
                assert(s.subrange(i + 1, n) == s.subrange(i + 1, j) + s.subrange(j, n));
                assert(s.subrange(i + 1, n) == s.subrange(i + 1, k) + z);
            }
            lemma_escape_blocked(v, acc, s.subrange(j, n), z);
            assert(z[0] == s[k]);
            if (s[k] as u32) < 32 && s[k] != '"' {
                assert(false);
            } else {
                assert(z.len() >= 2);
                assert(z[1] == s[k + 1]);
                if z[1] == 'u' {
                    assert(z.len() >= 6);
                    assert(z[2] == s[k + 2] && z[3] == s[k + 3] && z[4] == s[k + 4]
                        && z[5] == s[k + 5]);
                }
                assert(false);
            }
        }
    }
}

/// Parses a JSON string starting at `i`; whatever comes back encodes to
/// exactly the consumed slice.
pub fn parse_jstring_at(s: &str, i: usize) -> (r: Option<(String, usize)>)
    requires
        i <= s@.len(),
    ensures
        r matches Some(v) ==> i < v.1 <= s@.len()
            && s@.subrange(i as int, v.1 as int) == jstring(v.0@),
        r is None ==> forall|v: Seq<char>, j: int|
            #![trigger s@.subrange(i as int, j), jstring(v)]
            i <= j <= s@.len() ==> s@.subrange(i as int, j) != jstring(v),
{
    let n = s.unicode_len();
    if i >= n || s.get_char(i) != '"' {
        proof {
            assert forall|v: Seq<char>, j: int|
                #![trigger s@.subrange(i as int, j), jstring(v)]
                i <= j <= s@.len() implies s@.subrange(i as int, j) != jstring(v) by {
                if s@.subrange(i as int, j) == jstring(v) {
                    lemma_jstring_decomp(s@, i as int, j, v);
                }
            }
        }
        return None;
    }
    let mut acc = String::new();
    let mut k: usize = i + 1;
    loop
        invariant
            i + 1 <= k <= n,
            n == s@.len(),
            s@[i as int] == '"',
            s@.subrange(i as int + 1, k as int) == json_escape(acc@),
        ensures
            i + 1 <= k <= n,
            acc@ == acc@,
        decreases n - k,
    {
        if k >= n {
            proof {
                assert forall|v: Seq<char>, j: int|
                    #![trigger s@.subrange(i as int, j), jstring(v)]
                    i <= j <= s@.len() implies s@.subrange(i as int, j) != jstring(v) by {
                    if s@.subrange(i as int, j) == jstring(v) {
                        lemma_jstring_decomp(s@, i as int, j, v);
                        lemma_subrange_cat(s@, i as int + 1, j, n as int);
                        assert(json_escape(v) + seq!['"'] + s@.subrange(j, n as int)
                            == json_escape(acc@) + Seq::<char>::empty()) by {
                            assert(s@.subrange(i as int + 1, n as int)
                                == s@.subrange(i as int + 1, j) + s@.subrange(j, n as int));
                            assert(json_escape(acc@) + Seq::<char>::empty()
                                =~= json_escape(acc@));
                        }
                        lemma_escape_blocked(
                            v, acc@, s@.subrange(j, n as int), Seq::<char>::empty(),
                        );
                    }
                }
            }
            return None;
        }
        let c = s.get_char(k);
        let ghost pre = acc@;
        if c == '"' {
            proof {
                assert(s@.subrange(i as int, k as int + 1) =~= jstring(acc@));
            }
            return Some((acc, k + 1));
        }
        if c == '\\' {
            if k + 1 >= n {
                proof {
                    lemma_jstring_none_blocked(s@, i as int, k as int, acc@);
                }
                return None;
            }
            let d = s.get_char(k + 1);
            if d == '"' || d == '\\' {
                crate::sys::push_char(&mut acc, d);
                proof {
                    lemma_escape_push(pre, d);
                    assert(esc_char(d) =~= seq!['\\', d]);
                    assert(s@.subrange(i as int + 1, k as int + 2)
                        =~= s@.subrange(i as int + 1, k as int).push(s@[k as int]).push(
                        s@[k as int + 1]));
                    assert(s@.subrange(i as int + 1, k as int + 2) =~= json_escape(acc@));
                }
                k = k + 2;
            } else if d == 'u' {
                if n - k < 6 {
                    proof {
                        lemma_jstring_none_blocked(s@, i as int, k as int, acc@);
                    }
                    return None;
                }
                let h2 = s.get_char(k + 2);
                let h3 = s.get_char(k + 3);
                let h4 = s.get_char(k + 4);
                let h5 = s.get_char(k + 5);
                if h2 != '0' || h3 != '0' || !(h4 == '0' || h4 == '1') {
                    proof {
                        lemma_jstring_none_blocked(s@, i as int, k as int, acc@);
                    }
                    return None;
                }
                if !((h5 >= '0' && h5 <= '9') || (h5 >= 'a' && h5 <= 'f')) {
                    proof {
                        lemma_jstring_none_blocked(s@, i as int, k as int, acc@);
                    }
                    return None;
                }
                let v4: u32 = if h4 == '1' {
                    1
                } else {
                    0
                };
                let v5: u32 = if h5 >= '0' && h5 <= '9' {
                    h5 as u32 - 48
                } else {
                    h5 as u32 - 97 + 10
                };
                let v: u32 = v4 * 16 + v5;
                let ch = crate::sys::char_from_code(v);
                crate::sys::push_char(&mut acc, ch);
                proof {
                    lemma_escape_push(pre, ch);
                    vstd::utf8::char_u32_cast(ch, v);
                    assert(ch as u32 == v);
                    let cv = (ch as u32) as int;
                    assert(cv / 16 == v4 && cv % 16 == v5) by {
                        crate::tstamp::lemma_split_div(cv, cv, 16);
                    }
                    assert(hex_char(cv / 16) == h4);
                    assert(hex_char(cv % 16) == h5);
                    assert(esc_char(ch) =~= seq!['\\', 'u', '0', '0', h4, h5]);
                    assert(s@.subrange(i as int + 1, k as int + 6)
                        =~= s@.subrange(i as int + 1, k as int) + esc_char(ch));
                    assert(s@.subrange(i as int + 1, k as int + 6) =~= json_escape(acc@));
                }
                k = k + 6;
            } else {
                proof {
                    lemma_jstring_none_blocked(s@, i as int, k as int, acc@);
                }
                return None;
            }
        } else {
            if (c as u32) < 32 {
                proof {
                    lemma_jstring_none_blocked(s@, i as int, k as int, acc@);
                }
                return None;
            }
            crate::sys::push_char(&mut acc, c);
            proof {
                lemma_escape_push(pre, c);
                assert(esc_char(c) =~= seq![c]);
                assert(s@.subrange(i as int + 1, k as int + 1)
                    =~= s@.subrange(i as int + 1, k as int).push(s@[k as int]));
                assert(s@.subrange(i as int + 1, k as int + 1) =~= json_escape(acc@));
            }
            k = k + 1;
        }
    }
}

/// Parses a plain decimal starting at `i`: digits without a leading zero,
/// fitting a `u64`; the result renders back to exactly the consumed slice,
/// and the character after it (if any) is no digit.
pub fn parse_dec_at(s: &str, i: usize) -> (r: Option<(u64, usize)>)
    requires
        i <= s@.len(),
    ensures
        r matches Some(v) ==> i < v.1 <= s@.len()
            && s@.subrange(i as int, v.1 as int) == dec_str(v.0 as nat)
            && (v.1 < s@.len() ==> !is_digit(s@[v.1 as int])),
        r is None ==> forall|v: nat, j: int| #![trigger s@.subrange(i as int, j), dec_str(v)]
            !(i <= j <= s@.len() && v <= u64::MAX && s@.subrange(i as int, j) == dec_str(v)
                && (j == s@.len() || !is_digit(s@[j]))),
{
    let n = s.unicode_len();
    if i >= n {
        proof {
            assert forall|v: nat, j: int| #![trigger s@.subrange(i as int, j), dec_str(v)]
                !(i <= j <= s@.len() && v <= u64::MAX && s@.subrange(i as int, j) == dec_str(v)
                    && (j == s@.len() || !is_digit(s@[j]))) by {
                if i <= j <= s@.len() && s@.subrange(i as int, j) == dec_str(v) {
                    lemma_dec_str_shape(v);
                }
            }
        }
        return None;
    }
    let c0 = s.get_char(i);
    if !(c0 >= '0' && c0 <= '9') {
        proof {
            assert forall|v: nat, j: int| #![trigger s@.subrange(i as int, j), dec_str(v)]
                !(i <= j <= s@.len() && v <= u64::MAX && s@.subrange(i as int, j) == dec_str(v)
                    && (j == s@.len() || !is_digit(s@[j]))) by {
                if i <= j <= s@.len() && s@.subrange(i as int, j) == dec_str(v) {
                    lemma_dec_str_shape(v);
                    assert(s@.subrange(i as int, j)[0] == s@[i as int]);
                    assert(is_digit(dec_str(v)[0]));
                }
            }
        }
        return None;
    }
    let mut k: usize = i + 1;
    let mut acc: u64 = (c0 as u32 as u64) - 48;
    proof {
        let t0 = s@.subrange(i as int, i as int + 1);
        assert(t0 =~= seq![s@[i as int]]);
        assert(t0.drop_last() =~= Seq::<char>::empty());
        assert(digits_val(t0.drop_last()) == 0);
        assert(digits_val(t0) == crate::text::digit_val(s@[i as int]));
        assert(all_digits(t0));
    }
    if c0 == '0' {
        // a canonical zero stands alone
        if k < n {
            let c1 = s.get_char(k);
            if c1 >= '0' && c1 <= '9' {
                proof {
                    assert forall|v: nat, j: int|
                        #![trigger s@.subrange(i as int, j), dec_str(v)]
                        !(i <= j <= s@.len() && v <= u64::MAX
                            && s@.subrange(i as int, j) == dec_str(v)
                            && (j == s@.len() || !is_digit(s@[j]))) by {
                        if i <= j <= s@.len() && s@.subrange(i as int, j) == dec_str(v) {
                            lemma_dec_str_shape(v);
                            assert(s@.subrange(i as int, j)[0] == s@[i as int]);
                            assert(dec_str(v)[0] == '0');
                            assert(v < 10);
                            assert(j == i + 1);
                            assert(is_digit(s@[j]));
                        }
                    }
                }
                return None;
            }
        }
        proof {
            let t = s@.subrange(i as int, i as int + 1);
            assert(t =~= seq![s@[i as int]]);
            assert(t.drop_last() =~= Seq::<char>::empty());
            assert(digits_val(t.drop_last()) == 0);
            assert(digits_val(t) == crate::text::digit_val(s@[i as int]));
            assert(digits_val(t) == 0);
            lemma_digits_canonical(t);
        }
        return Some((0, k));
    }
    loop
        invariant
            i < k <= n,
            n == s@.len(),
            all_digits(s@.subrange(i as int, k as int)),
            s@.subrange(i as int, k as int)[0] != '0',
            acc == digits_val(s@.subrange(i as int, k as int)),
            acc >= 1,
        ensures
            i < k <= n,
            k < n ==> !is_digit(s@[k as int]),
            acc == digits_val(s@.subrange(i as int, k as int)),
            all_digits(s@.subrange(i as int, k as int)),
            s@.subrange(i as int, k as int)[0] != '0',
        decreases n - k,
    {
        if k >= n {
            break;
        }
        let c = s.get_char(k);
        if !(c >= '0' && c <= '9') {
            break;
        }
        let d: u64 = (c as u32 as u64) - 48;
        if acc > (u64::MAX - d) / 10 {
            proof {
                let t1 = s@.subrange(i as int, k as int + 1);
                assert(t1.drop_last() =~= s@.subrange(i as int, k as int));
                assert(t1.last() == s@[k as int]);
                assert(all_digits(t1)) by {
                    assert(forall|q: int| 0 <= q < t1.len() - 1
                        ==> #[trigger] t1[q] == s@.subrange(i as int, k as int)[q]);
                }
                assert(d == crate::text::digit_val(s@[k as int]));
                assert(digits_val(t1) == acc * 10 + d);
                crate::tstamp::lemma_split_div(u64::MAX - d, u64::MAX - d, 10);
                assert(acc * 10 + d > u64::MAX) by {
                    assert(acc >= (u64::MAX - d) / 10 + 1);
                    assert(acc * 10 >= ((u64::MAX - d) / 10) * 10 + 10);
                }
                assert forall|v: nat, j: int| #![trigger s@.subrange(i as int, j), dec_str(v)]
                    !(i <= j <= s@.len() && v <= u64::MAX
                        && s@.subrange(i as int, j) == dec_str(v)
                        && (j == s@.len() || !is_digit(s@[j]))) by {
                    if i <= j <= s@.len() && v <= u64::MAX
                        && s@.subrange(i as int, j) == dec_str(v)
                        && (j == s@.len() || !is_digit(s@[j])) {
                        lemma_dec_str_shape(v);
                        let t = s@.subrange(i as int, j);
                        if j <= k {
                            assert(j < n);
                            assert(is_digit(s@[j])) by {
                                if j < k {
                                    assert(s@.subrange(i as int, k as int)[j - i] == s@[j]);
                                }
                            }
                        } else {
                            assert(t.subrange(0, k as int + 1 - i) =~= t1);
                            lemma_digits_val_prefix(t, k as int + 1 - i);
                            assert(digits_val(t) == v);
                            assert(v > u64::MAX);
                        }
                    }
                }
            }
            return None;
        }
        let ghost pre = s@.subrange(i as int, k as int);
        acc = acc * 10 + d;
        proof {
            let t = s@.subrange(i as int, k as int + 1);
            assert(t.drop_last() =~= pre);
            assert(t.last() == s@[k as int]);
            assert(d == crate::text::digit_val(s@[k as int]));
            assert(all_digits(t)) by {
                assert(forall|j: int| 0 <= j < t.len() - 1 ==> #[trigger] t[j] == pre[j]);
            }
            assert(t[0] == pre[0]);
        }
        k = k + 1;
    }
    proof {
        lemma_digits_canonical(s@.subrange(i as int, k as int));
    }
    Some((acc, k))
}

/// Matches the fixed text `lit` at position `i`.
pub fn expect_lit(s: &str, i: usize, lit: &str) -> (r: Option<usize>)
    requires
        i <= s@.len(),
    ensures
        r matches Some(j) ==> j == i + lit@.len() && j <= s@.len()
            && s@.subrange(i as int, j as int) == lit@,
        r is None ==> !(i + lit@.len() <= s@.len()
            && s@.subrange(i as int, i + lit@.len() as int) == lit@),
{
    let n = s.unicode_len();
    let m = lit.unicode_len();
    if n - i < m || m > n {
        return None;
    }
    let mut k: usize = 0;
    while k < m
        invariant
            0 <= k <= m,
            i + m <= n,
            n == s@.len(),
            m == lit@.len(),
            forall|j: int| 0 <= j < k as int ==> s@[i + j] == lit@[j],
        decreases m - k,
    {
        if s.get_char(i + k) != lit.get_char(k) {
            proof {
                assert(s@.subrange(i as int, i + m as int) != lit@) by {
                    if s@.subrange(i as int, i + m as int) == lit@ {
                        assert(s@.subrange(i as int, i + m as int)[k as int] == s@[i + k]);
                    }
                }
            }
            return None;
        }
        k = k + 1;
    }
    proof {
        assert(s@.subrange(i as int, i + m as int) =~= lit@);
    }
    Some(i + m)
}

/// Concatenation of character sequences is associative.
pub proof fn lemma_seq_assoc(a: Seq<char>, b: Seq<char>, c: Seq<char>)
    ensures
        (a + b) + c == a + (b + c),
{
    assert((a + b) + c =~= a + (b + c));
}

/// A range of a sequence splits at any interior point.
pub proof fn lemma_subrange_cat(s: Seq<char>, a: int, b: int, c: int)
    requires
        0 <= a <= b <= c <= s.len(),
    ensures
        s.subrange(a, c) == s.subrange(a, b) + s.subrange(b, c),
{
    assert(s.subrange(a, c) =~= s.subrange(a, b) + s.subrange(b, c));
}

/// Splits a suffix of a text along a known decomposition: the first block
/// sits right at the position, the rest right after it.
pub proof fn lemma_take_prefix(data: Seq<char>, p: int, b: Seq<char>, c: Seq<char>)
    requires
        0 <= p <= data.len(),
        data.subrange(p, data.len() as int) == b + c,
    ensures
        p + b.len() <= data.len(),
        data.subrange(p, p + b.len()) == b,
        data.subrange(p + b.len(), data.len() as int) == c,
{
    let s = data.subrange(p, data.len() as int);
    assert(s.len() == b.len() + c.len());
    assert(data.subrange(p, p + b.len()) =~= s.subrange(0, b.len() as int));
    assert(s.subrange(0, b.len() as int) =~= b);
    assert(data.subrange(p + b.len(), data.len() as int)
        =~= s.subrange(b.len() as int, s.len() as int));
    assert(s.subrange(b.len() as int, s.len() as int) =~= c);
}

} // verus!
