//! The general manifest JSON reader.
//!
//! The canonical codec in `json`/`manifest` writes one fixed compact form;
//! this module reads manifest texts as the wire format defines them: a JSON
//! object carrying the required `id` and any of the optional keys, in any
//! order, with any JSON whitespace, with the standard string escapes
//! (including `\uXXXX` for scalar values outside the surrogate range), and
//! with absent keys falling back to their defaults.  A key outside the
//! format is read over and ignored, as the usual JSON data binding does.
//! Metadata values must be JSON strings, the shape this library's manifest
//! model carries; a repeated key or a value of the wrong type is rejected.
//!
//! The grammar is stated once, as the spec functions below; the executable
//! reader returns exactly what they denote.

use vstd::prelude::*;

use crate::text::{digits_val, is_digit};

verus! {

/// JSON whitespace.
pub open spec fn is_ws(c: char) -> bool {
    c == ' ' || c == '\t' || c == '\n' || c == '\r'
}

/// The first position at or after `i` holding no whitespace.
pub open spec fn skip_ws(s: Seq<char>, i: int) -> int
    decreases s.len() - i, when 0 <= i <= s.len()
{
    if i < s.len() && is_ws(s[i]) {
        skip_ws(s, i + 1)
    } else {
        i
    }
}

pub proof fn lemma_skip_ws_bounds(s: Seq<char>, i: int)
    requires
        0 <= i <= s.len(),
    ensures
        i <= skip_ws(s, i) <= s.len(),
    decreases s.len() - i,
{
    if i < s.len() && is_ws(s[i]) {
        lemma_skip_ws_bounds(s, i + 1);
    }
}

/// The character a single-letter escape denotes.
pub open spec fn esc_code(c: char) -> Option<char> {
    if c == '"' {
        Some('"')
    } else if c == '\\' {
        Some('\\')
    } else if c == '/' {
        Some('/')
    } else if c == 'b' {
        Some(8 as char)
    } else if c == 'f' {
        Some(12 as char)
    } else if c == 'n' {
        Some('\n')
    } else if c == 'r' {
        Some('\r')
    } else if c == 't' {
        Some('\t')
    } else {
        None
    }
}

/// The value of a hexadecimal digit in either case, or -1.
pub open spec fn hex_digit_val(c: char) -> int {
    if '0' <= c && c <= '9' {
        c as int - '0' as int
    } else if 'a' <= c && c <= 'f' {
        c as int - 'a' as int + 10
    } else if 'A' <= c && c <= 'F' {
        c as int - 'A' as int + 10
    } else {
        -1
    }
}

/// The code point of a `\uXXXX` escape at `i` (`i` is the first hex digit),
/// or -1 when a digit is missing.
pub open spec fn u_escape_val(s: Seq<char>, i: int) -> int {
    if hex_digit_val(s[i]) < 0 || hex_digit_val(s[i + 1]) < 0 || hex_digit_val(s[i + 2]) < 0
        || hex_digit_val(s[i + 3]) < 0 {
        -1
    } else {
        hex_digit_val(s[i]) * 0x1000 + hex_digit_val(s[i + 1]) * 0x100
            + hex_digit_val(s[i + 2]) * 0x10 + hex_digit_val(s[i + 3])
    }
}

/// The body of a JSON string read from position `i` (just after the opening
/// quote) to its closing quote: raw characters above the control range,
/// single-letter escapes, and non-surrogate `\uXXXX` escapes.
pub open spec fn rstr_body(s: Seq<char>, i: int) -> Option<(Seq<char>, int)>
    decreases s.len() - i, when 0 <= i <= s.len()
{
    if i >= s.len() {
        None
    } else if s[i] == '"' {
        Some((Seq::empty(), i + 1))
    } else if s[i] == '\\' {
        if i + 2 > s.len() {
            None
        } else if s[i + 1] == 'u' {
            if i + 6 > s.len() {
                None
            } else {
                let v = u_escape_val(s, i + 2);
                if v < 0 || (0xD800 <= v && v < 0xE000) {
                    None
                } else {
                    match rstr_body(s, i + 6) {
                        Some(t) => Some((seq![v as char] + t.0, t.1)),
                        None => None,
                    }
                }
            }
        } else {
            match esc_code(s[i + 1]) {
                Some(c) => match rstr_body(s, i + 2) {
                    Some(t) => Some((seq![c] + t.0, t.1)),
                    None => None,
                },
                None => None,
            }
        }
    } else if (s[i] as int) < 32 {
        None
    } else {
        match rstr_body(s, i + 1) {
            Some(t) => Some((seq![s[i]] + t.0, t.1)),
            None => None,
        }
    }
}

pub proof fn lemma_rstr_bounds(s: Seq<char>, i: int)
    requires
        0 <= i <= s.len(),
        rstr_body(s, i) is Some,
    ensures
        i < (rstr_body(s, i)->0).1 <= s.len(),
    decreases s.len() - i,
{
    if i >= s.len() || s[i] == '"' {
    } else if s[i] == '\\' {
        if s[i + 1] == 'u' {
            lemma_rstr_bounds(s, i + 6);
        } else {
            lemma_rstr_bounds(s, i + 2);
        }
    } else {
        lemma_rstr_bounds(s, i + 1);
    }
}

/// The first position at or after `i` holding no decimal digit.
pub open spec fn digits_end(s: Seq<char>, i: int) -> int
    decreases s.len() - i, when 0 <= i <= s.len()
{
    if i < s.len() && is_digit(s[i]) {
        digits_end(s, i + 1)
    } else {
        i
    }
}

pub proof fn lemma_digits_end_bounds(s: Seq<char>, i: int)
    requires
        0 <= i <= s.len(),
    ensures
        i <= digits_end(s, i) <= s.len(),
        crate::text::all_digits(s.subrange(i, digits_end(s, i))),
        digits_end(s, i) < s.len() ==> !is_digit(s[digits_end(s, i)]),
    decreases s.len() - i,
{
    let e = digits_end(s, i);
    if i < s.len() && is_digit(s[i]) {
        lemma_digits_end_bounds(s, i + 1);
        assert(crate::text::all_digits(s.subrange(i, e))) by {
            let sub = s.subrange(i, e);
            let sub1 = s.subrange(i + 1, e);
            assert(forall|j: int| 1 <= j < sub.len() ==> #[trigger] sub[j] == sub1[j - 1]);
            assert(sub[0] == s[i]);
        }
    } else {
        assert(s.subrange(i, e) =~= Seq::<char>::empty());
    }
}

/// An unsigned JSON integer at `i`: decimal digits without a leading zero
/// (zero itself stands alone), valued at most `max`.
pub open spec fn rint(s: Seq<char>, i: int, max: int) -> Option<(int, int)> {
    if i >= s.len() || !is_digit(s[i]) {
        None
    } else if s[i] == '0' {
        Some((0, i + 1))
    } else {
        let e = digits_end(s, i);
        let v = digits_val(s.subrange(i, e));
        if v > max {
            None
        } else {
            Some((v, e))
        }
    }
}

/// Where a JSON number starting at `i` ends: an optional minus, an integer
/// part without leading zeros, an optional fraction, an optional exponent.
pub open spec fn rnum_end(s: Seq<char>, i: int) -> Option<int> {
    let i1 = if i < s.len() && s[i] == '-' {
        i + 1
    } else {
        i
    };
    if i1 >= s.len() || !is_digit(s[i1]) {
        None
    } else {
        let i2 = if s[i1] == '0' {
            i1 + 1
        } else {
            digits_end(s, i1)
        };
        let i3 = if i2 < s.len() && s[i2] == '.' {
            if i2 + 1 < s.len() && is_digit(s[i2 + 1]) {
                digits_end(s, i2 + 1)
            } else {
                -1
            }
        } else {
            i2
        };
        if i3 < 0 {
            None
        } else if i3 < s.len() && (s[i3] == 'e' || s[i3] == 'E') {
            let i4 = if i3 + 1 < s.len() && (s[i3 + 1] == '+' || s[i3 + 1] == '-') {
                i3 + 2
            } else {
                i3 + 1
            };
            if i4 < s.len() && is_digit(s[i4]) {
                Some(digits_end(s, i4))
            } else {
                None
            }
        } else {
            Some(i3)
        }
    }
}

/// Where the JSON value starting at `i` ends.  Values nest at most `depth`
/// levels of arrays and objects, the same kind of bound JSON readers
/// commonly impose on recursion.
pub open spec fn rvalue_end(s: Seq<char>, i: int, depth: nat) -> Option<int>
    decreases depth, s.len() - i, 0int, when 0 <= i <= s.len()
{
    if i >= s.len() {
        None
    } else if s[i] == '"' {
        match rstr_body(s, i + 1) {
            Some(t) => Some(t.1),
            None => None,
        }
    } else if s[i] == '{' {
        if depth == 0 {
            None
        } else {
            let j = skip_ws(s, i + 1);
            if j < s.len() && s[j] == '}' {
                Some(j + 1)
            } else if 0 <= j <= s.len() {
                robj_tail(s, j, (depth - 1) as nat)
            } else {
                None
            }
        }
    } else if s[i] == '[' {
        if depth == 0 {
            None
        } else {
            let j = skip_ws(s, i + 1);
            if j < s.len() && s[j] == ']' {
                Some(j + 1)
            } else if 0 <= j <= s.len() {
                rarr_tail(s, j, (depth - 1) as nat)
            } else {
                None
            }
        }
    } else if s[i] == 't' {
        if i + 4 <= s.len() && s[i + 1] == 'r' && s[i + 2] == 'u' && s[i + 3] == 'e' {
            Some(i + 4)
        } else {
            None
        }
    } else if s[i] == 'f' {
        if i + 5 <= s.len() && s[i + 1] == 'a' && s[i + 2] == 'l' && s[i + 3] == 's'
            && s[i + 4] == 'e' {
            Some(i + 5)
        } else {
            None
        }
    } else if s[i] == 'n' {
        if i + 4 <= s.len() && s[i + 1] == 'u' && s[i + 2] == 'l' && s[i + 3] == 'l' {
            Some(i + 4)
        } else {
            None
        }
    } else {
        rnum_end(s, i)
    }
}

/// The elements of an array from the start of one element to the closing
/// bracket.
pub open spec fn rarr_tail(s: Seq<char>, i: int, depth: nat) -> Option<int>
    decreases depth, s.len() - i, 1int, when 0 <= i <= s.len()
{
    match rvalue_end(s, i, depth) {
        None => None,
        Some(j) => {
            let j5 = skip_ws(s, if 0 <= j && j <= s.len() { j } else { s.len() as int });
            if j5 < s.len() && s[j5] == ',' {
                let j6 = skip_ws(s, j5 + 1);
                if i < j6 <= s.len() {
                    rarr_tail(s, j6, depth)
                } else {
                    None
                }
            } else if j5 < s.len() && s[j5] == ']' {
                Some(j5 + 1)
            } else {
                None
            }
        },
    }
}

/// The members of an object from the start of one key to the closing brace.
pub open spec fn robj_tail(s: Seq<char>, i: int, depth: nat) -> Option<int>
    decreases depth, s.len() - i, 1int, when 0 <= i <= s.len()
{
    if i >= s.len() || s[i] != '"' {
        None
    } else {
        match rstr_body(s, i + 1) {
            None => None,
            Some(k) => {
                let j2 = skip_ws(s, if k.1 <= s.len() { k.1 } else { s.len() as int });
                if j2 >= s.len() || s[j2] != ':' {
                    None
                } else {
                    let j3 = skip_ws(s, j2 + 1);
                    if !(i < j3 <= s.len()) {
                        None
                    } else {
                        match rvalue_end(s, j3, depth) {
                            None => None,
                            Some(j) => {
                                let j5 = skip_ws(s, if 0 <= j && j <= s.len() {
                                    j
                                } else {
                                    s.len() as int
                                });
                                if j5 < s.len() && s[j5] == ',' {
                                    let j6 = skip_ws(s, j5 + 1);
                                    if i < j6 <= s.len() {
                                        robj_tail(s, j6, depth)
                                    } else {
                                        None
                                    }
                                } else if j5 < s.len() && s[j5] == '}' {
                                    Some(j5 + 1)
                                } else {
                                    None
                                }
                            },
                        }
                    }
                }
            },
        }
    }
}

/// The nesting bound the readers impose on skipped values.
pub const VALUE_DEPTH: u32 = 128;

/// An accepted number ends after its start, within the text.
pub proof fn lemma_rnum_bounds(s: Seq<char>, i: int)
    requires
        0 <= i <= s.len(),
        rnum_end(s, i) is Some,
    ensures
        i < rnum_end(s, i)->0 <= s.len(),
{
    let i1 = if i < s.len() && s[i] == '-' {
        i + 1
    } else {
        i
    };
    lemma_digits_end_bounds(s, i1);
    let i2 = if s[i1] == '0' {
        i1 + 1
    } else {
        digits_end(s, i1)
    };
    if i2 < s.len() && s[i2] == '.' {
        if i2 + 1 < s.len() && is_digit(s[i2 + 1]) {
            lemma_digits_end_bounds(s, i2 + 1);
        }
    }
    let i3 = if i2 < s.len() && s[i2] == '.' {
        if i2 + 1 < s.len() && is_digit(s[i2 + 1]) {
            digits_end(s, i2 + 1)
        } else {
            -1
        }
    } else {
        i2
    };
    if i3 >= 0 && i3 < s.len() && (s[i3] == 'e' || s[i3] == 'E') {
        let i4 = if i3 + 1 < s.len() && (s[i3 + 1] == '+' || s[i3 + 1] == '-') {
            i3 + 2
        } else {
            i3 + 1
        };
        if i4 < s.len() && is_digit(s[i4]) {
            lemma_digits_end_bounds(s, i4);
        }
    }
}

/// An accepted value ends after its start, within the text.
pub proof fn lemma_rvalue_bounds(s: Seq<char>, i: int, depth: nat)
    requires
        0 <= i <= s.len(),
        rvalue_end(s, i, depth) is Some,
    ensures
        i < rvalue_end(s, i, depth)->0 <= s.len(),
    decreases depth, s.len() - i, 0int,
{
    if i >= s.len() {
    } else if s[i] == '"' {
        lemma_rstr_bounds(s, i + 1);
    } else if s[i] == '{' {
        let j = skip_ws(s, i + 1);
        lemma_skip_ws_bounds(s, i + 1);
        if j < s.len() && s[j] == '}' {
        } else {
            lemma_robj_bounds(s, j, (depth - 1) as nat);
        }
    } else if s[i] == '[' {
        let j = skip_ws(s, i + 1);
        lemma_skip_ws_bounds(s, i + 1);
        if j < s.len() && s[j] == ']' {
        } else {
            lemma_rarr_bounds(s, j, (depth - 1) as nat);
        }
    } else if s[i] == 't' || s[i] == 'f' || s[i] == 'n' {
    } else {
        lemma_rnum_bounds(s, i);
    }
}

/// Accepted array elements end after their start, within the text.
pub proof fn lemma_rarr_bounds(s: Seq<char>, i: int, depth: nat)
    requires
        0 <= i <= s.len(),
        rarr_tail(s, i, depth) is Some,
    ensures
        i < rarr_tail(s, i, depth)->0 <= s.len(),
    decreases depth, s.len() - i, 1int,
{
    lemma_rvalue_bounds(s, i, depth);
    let j = rvalue_end(s, i, depth)->0;
    let j5 = skip_ws(s, j);
    lemma_skip_ws_bounds(s, j);
    if j5 < s.len() && s[j5] == ',' {
        let j6 = skip_ws(s, j5 + 1);
        lemma_skip_ws_bounds(s, j5 + 1);
        lemma_rarr_bounds(s, j6, depth);
    }
}

/// Accepted object members end after their start, within the text.
pub proof fn lemma_robj_bounds(s: Seq<char>, i: int, depth: nat)
    requires
        0 <= i <= s.len(),
        robj_tail(s, i, depth) is Some,
    ensures
        i < robj_tail(s, i, depth)->0 <= s.len(),
    decreases depth, s.len() - i, 1int,
{
    lemma_rstr_bounds(s, i + 1);
    let k = rstr_body(s, i + 1)->0;
    let j2 = skip_ws(s, k.1);
    lemma_skip_ws_bounds(s, k.1);
    let j3 = skip_ws(s, j2 + 1);
    lemma_skip_ws_bounds(s, j2 + 1);
    lemma_rvalue_bounds(s, j3, depth);
    let j = rvalue_end(s, j3, depth)->0;
    let j5 = skip_ws(s, j);
    lemma_skip_ws_bounds(s, j);
    if j5 < s.len() && s[j5] == ',' {
        let j6 = skip_ws(s, j5 + 1);
        lemma_skip_ws_bounds(s, j5 + 1);
        lemma_robj_bounds(s, j6, depth);
    }
}

/// A metadata value as the reader denotes it: a decoded string, or any
/// other JSON value as its raw text span.
pub enum MetaValV {
    Str(Seq<char>),
    Raw(Seq<char>),
}

/// The reader's denotation of an executable metadata value.
pub open spec fn meta_value_view(v: crate::manifest::MetaValue) -> MetaValV {
    match v {
        crate::manifest::MetaValue::Str(s) => MetaValV::Str(s@),
        crate::manifest::MetaValue::Raw(t) => MetaValV::Raw(t@),
    }
}

/// The fields a manifest text can assign, each at most once.
pub struct JsonFields {
    pub id: Option<Seq<char>>,
    pub version: Option<int>,
    pub node: Option<Seq<char>>,
    pub data_type: Option<Seq<char>>,
    pub data_size: Option<int>,
    pub data_hash: Option<Seq<char>>,
    pub metadata: Option<Seq<(Seq<char>, MetaValV)>>,
}

/// No field assigned yet.
pub open spec fn empty_fields() -> JsonFields {
    JsonFields {
        id: None,
        version: None,
        node: None,
        data_type: None,
        data_size: None,
        data_hash: None,
        metadata: None,
    }
}

/// A string field's value, defaulted to empty when the key was absent.
pub open spec fn fld_str(o: Option<Seq<char>>) -> Seq<char> {
    match o {
        Some(v) => v,
        None => Seq::empty(),
    }
}

/// A numeric field's value, defaulted when the key was absent.
pub open spec fn fld_int(o: Option<int>, d: int) -> int {
    match o {
        Some(v) => v,
        None => d,
    }
}

/// The metadata entries, defaulted to none when the key was absent.
pub open spec fn fld_meta(o: Option<Seq<(Seq<char>, MetaValV)>>) -> Seq<(Seq<char>, MetaValV)> {
    match o {
        Some(v) => v,
        None => Seq::empty(),
    }
}

/// The members of the metadata object from position `i` (at a key's opening
/// quote): string keys, string values, in order of appearance.
pub open spec fn rmeta_members(s: Seq<char>, i: int, acc: Seq<(Seq<char>, MetaValV)>) -> Option<
    (Seq<(Seq<char>, MetaValV)>, int),
>
    decreases s.len() - i, when 0 <= i <= s.len()
{
    if i >= s.len() || s[i] != '"' {
        None
    } else {
        match rstr_body(s, i + 1) {
            None => None,
            Some(k) => {
                let j2 = skip_ws(s, if k.1 <= s.len() { k.1 } else { s.len() as int });
                if j2 >= s.len() || s[j2] != ':' {
                    None
                } else {
                    let j3 = skip_ws(s, j2 + 1);
                    if !(0 <= j3 <= s.len()) {
                        None
                    } else {
                        let vread = if j3 < s.len() && s[j3] == '"' {
                            match rstr_body(s, j3 + 1) {
                                Some(v) => Some((MetaValV::Str(v.0), v.1)),
                                None => None,
                            }
                        } else {
                            match rvalue_end(s, j3, VALUE_DEPTH as nat) {
                                Some(j) => if j3 <= j <= s.len() {
                                    Some((MetaValV::Raw(s.subrange(j3, j)), j))
                                } else {
                                    None
                                },
                                None => None,
                            }
                        };
                        match vread {
                            None => None,
                            Some(v) => {
                                let acc2 = acc.push((k.0, v.0));
                                let j5 = skip_ws(s, if v.1 <= s.len() {
                                    v.1
                                } else {
                                    s.len() as int
                                });
                                if j5 < s.len() && s[j5] == ',' {
                                    let j6 = skip_ws(s, j5 + 1);
                                    if i < j6 <= s.len() {
                                        rmeta_members(s, j6, acc2)
                                    } else {
                                        None
                                    }
                                } else if j5 < s.len() && s[j5] == '}' {
                                    Some((acc2, j5 + 1))
                                } else {
                                    None
                                }
                            },
                        }
                    }
                }
            },
        }
    }
}

/// The metadata object from position `i` (at its opening brace).
pub open spec fn rmeta(s: Seq<char>, i: int) -> Option<(Seq<(Seq<char>, MetaValV)>, int)> {
    if i >= s.len() || s[i] != '{' {
        None
    } else {
        let j = skip_ws(s, i + 1);
        if j < s.len() && s[j] == '}' {
            Some((Seq::empty(), j + 1))
        } else if 0 <= j <= s.len() {
            rmeta_members(s, j, Seq::empty())
        } else {
            None
        }
    }
}

/// One field assignment: the value of the key `k` read at `i`, merged into
/// `acc`; an unknown key's value is read over and ignored; a repeated key
/// or a value of the wrong type yields nothing.
pub open spec fn rfield(s: Seq<char>, i: int, acc: JsonFields, k: Seq<char>) -> Option<
    (JsonFields, int),
> {
    if k == seq!['i', 'd'] {
        if acc.id is Some {
            None
        } else if i < s.len() && s[i] == '"' {
            match rstr_body(s, i + 1) {
                Some(v) => Some((JsonFields { id: Some(v.0), ..acc }, v.1)),
                None => None,
            }
        } else {
            None
        }
    } else if k == seq!['v', 'e', 'r', 's', 'i', 'o', 'n'] {
        if acc.version is Some {
            None
        } else {
            match rint(s, i, 65535) {
                Some(v) => Some((JsonFields { version: Some(v.0), ..acc }, v.1)),
                None => None,
            }
        }
    } else if k == seq!['n', 'o', 'd', 'e'] {
        if acc.node is Some {
            None
        } else if i < s.len() && s[i] == '"' {
            match rstr_body(s, i + 1) {
                Some(v) => Some((JsonFields { node: Some(v.0), ..acc }, v.1)),
                None => None,
            }
        } else {
            None
        }
    } else if k == seq!['d', 'a', 't', 'a', '_', 't', 'y', 'p', 'e'] {
        if acc.data_type is Some {
            None
        } else if i < s.len() && s[i] == '"' {
            match rstr_body(s, i + 1) {
                Some(v) => Some((JsonFields { data_type: Some(v.0), ..acc }, v.1)),
                None => None,
            }
        } else {
            None
        }
    } else if k == seq!['d', 'a', 't', 'a', '_', 's', 'i', 'z', 'e'] {
        if acc.data_size is Some {
            None
        } else {
            match rint(s, i, usize::MAX as int) {
                Some(v) => Some((JsonFields { data_size: Some(v.0), ..acc }, v.1)),
                None => None,
            }
        }
    } else if k == seq!['d', 'a', 't', 'a', '_', 'h', 'a', 's', 'h'] {
        if acc.data_hash is Some {
            None
        } else if i < s.len() && s[i] == '"' {
            match rstr_body(s, i + 1) {
                Some(v) => Some((JsonFields { data_hash: Some(v.0), ..acc }, v.1)),
                None => None,
            }
        } else {
            None
        }
    } else if k == seq!['m', 'e', 't', 'a', 'd', 'a', 't', 'a'] {
        if acc.metadata is Some {
            None
        } else {
            match rmeta(s, i) {
                Some(v) => Some((JsonFields { metadata: Some(v.0), ..acc }, v.1)),
                None => None,
            }
        }
    } else {
        // an unknown key: its value is read over and ignored
        match rvalue_end(s, i, VALUE_DEPTH as nat) {
            Some(j) => Some((acc, j)),
            None => None,
        }
    }
}

/// The members of the manifest object from position `i` (at a key's opening
/// quote) until its closing brace.
pub open spec fn rmembers(s: Seq<char>, i: int, acc: JsonFields) -> Option<(JsonFields, int)>
    decreases s.len() - i, when 0 <= i <= s.len()
{
    if i >= s.len() || s[i] != '"' {
        None
    } else {
        match rstr_body(s, i + 1) {
            None => None,
            Some(k) => {
                let j2 = skip_ws(s, if k.1 <= s.len() { k.1 } else { s.len() as int });
                if j2 >= s.len() || s[j2] != ':' {
                    None
                } else {
                    let j3 = skip_ws(s, j2 + 1);
                    if !(0 <= j3 <= s.len()) {
                        None
                    } else {
                        match rfield(s, j3, acc, k.0) {
                            None => None,
                            Some(f) => {
                                let j5 = skip_ws(s, if f.1 <= s.len() {
                                    f.1
                                } else {
                                    s.len() as int
                                });
                                if j5 < s.len() && s[j5] == ',' {
                                    let j6 = skip_ws(s, j5 + 1);
                                    if i < j6 <= s.len() {
                                        rmembers(s, j6, f.0)
                                    } else {
                                        None
                                    }
                                } else if j5 < s.len() && s[j5] == '}' {
                                    Some((f.0, j5 + 1))
                                } else {
                                    None
                                }
                            },
                        }
                    }
                }
            },
        }
    }
}

/// What a manifest text denotes: the object's field assignments, with the
/// `id` key required and the whole text consumed.
pub open spec fn relaxed_manifest(s: Seq<char>) -> Option<JsonFields> {
    let i0 = skip_ws(s, 0);
    if i0 >= s.len() || s[i0] != '{' {
        None
    } else {
        let i1 = skip_ws(s, i0 + 1);
        let parsed = if i1 < s.len() && s[i1] == '}' {
            Some((empty_fields(), i1 + 1))
        } else if 0 <= i1 <= s.len() {
            rmembers(s, i1, empty_fields())
        } else {
            None
        };
        match parsed {
            None => None,
            Some(f) => {
                let j = skip_ws(s, if f.1 <= s.len() { f.1 } else { s.len() as int });
                if j == s.len() && f.0.id is Some {
                    Some(f.0)
                } else {
                    None
                }
            },
        }
    }
}

/// What the reader promises about a manifest built from the denoted fields.
pub open spec fn fields_match(m: crate::manifest::Manifest, f: JsonFields) -> bool {
    &&& f.id matches Some(idv) && m.id@ == idv
    &&& m.version as int == fld_int(f.version, crate::manifest::MANIFEST_VERSION as int)
    &&& m.node@ == fld_str(f.node)
    &&& m.data_type@ == fld_str(f.data_type)
    &&& m.data_size as int == fld_int(f.data_size, 0)
    &&& m.data_hash@ == fld_str(f.data_hash)
    &&& m.metadata@.len() == fld_meta(f.metadata).len()
    &&& forall|i: int| 0 <= i < m.metadata@.len()
        ==> (#[trigger] m.metadata@[i]).0@ == fld_meta(f.metadata)[i].0
            && meta_value_view(m.metadata@[i].1) == fld_meta(f.metadata)[i].1
}

/// Whether two strings hold the same characters.
fn str_is(s: &str, lit: &str) -> (r: bool)
    ensures
        r == (s@ == lit@),
{
    let n = s.unicode_len();
    let m = lit.unicode_len();
    if n != m {
        proof {
            assert(s@ != lit@);
        }
        return false;
    }
    let mut k: usize = 0;
    while k < n
        invariant
            0 <= k <= n,
            n == s@.len(),
            n == lit@.len(),
            forall|j: int| 0 <= j < k as int ==> s@[j] == lit@[j],
        decreases n - k,
    {
        if s.get_char(k) != lit.get_char(k) {
            return false;
        }
        k = k + 1;
    }
    proof {
        assert(s@ =~= lit@);
    }
    true
}

/// Advances over whitespace.
fn ws_to(s: &str, i: usize) -> (r: usize)
    requires
        i <= s@.len(),
    ensures
        r == skip_ws(s@, i as int),
        i <= r <= s@.len(),
{
    proof {
        lemma_skip_ws_bounds(s@, i as int);
    }
    let n = s.unicode_len();
    let mut k: usize = i;
    loop
        invariant
            i <= k <= n,
            n == s@.len(),
            skip_ws(s@, i as int) == skip_ws(s@, k as int),
        ensures
            i <= k <= n,
            k as int == skip_ws(s@, i as int),
        decreases n - k,
    {
        if k >= n {
            break;
        }
        let c = s.get_char(k);
        if !(c == ' ' || c == '\t' || c == '\n' || c == '\r') {
            break;
        }
        k = k + 1;
    }
    k
}

/// The numeric value of a hexadecimal digit, or -1.
fn hexv(c: char) -> (r: i8)
    ensures
        r as int == hex_digit_val(c),
{
    if c >= '0' && c <= '9' {
        (c as u32 as u8 - 48) as i8
    } else if c >= 'a' && c <= 'f' {
        (c as u32 as u8 - 97 + 10) as i8
    } else if c >= 'A' && c <= 'F' {
        (c as u32 as u8 - 65 + 10) as i8
    } else {
        -1
    }
}

/// Strings compose by prepending one character block.
proof fn lemma_compose_prepend(pre: Seq<char>, c: char, x: Seq<char>)
    ensures
        pre + (seq![c] + x) == pre.push(c) + x,
{
    assert(pre + (seq![c] + x) =~= pre.push(c) + x);
}

/// Reads a JSON string body from just after its opening quote.
fn read_str_body(s: &str, i: usize) -> (r: Option<(String, usize)>)
    requires
        i <= s@.len(),
    ensures
        match rstr_body(s@, i as int) {
            Some(t) => r matches Some(x) && x.0@ == t.0 && x.1 as int == t.1,
            None => r is None,
        },
{
    let n = s.unicode_len();
    let mut acc = String::new();
    let mut k: usize = i;
    loop
        invariant
            i <= k <= n,
            n == s@.len(),
            match rstr_body(s@, k as int) {
                Some(t) => rstr_body(s@, i as int) matches Some(t0) && t0.0 == acc@ + t.0
                    && t0.1 == t.1,
                None => rstr_body(s@, i as int) is None,
            },
        decreases n - k,
    {
        if k >= n {
            return None;
        }
        let c = s.get_char(k);
        if c == '"' {
            proof {
                assert(acc@ + Seq::<char>::empty() =~= acc@);
            }
            return Some((acc, k + 1));
        }
        if c == '\\' {
            if n - k < 2 {
                return None;
            }
            let e = s.get_char(k + 1);
            if e == 'u' {
                if n - k < 6 {
                    return None;
                }
                let h0 = hexv(s.get_char(k + 2));
                let h1 = hexv(s.get_char(k + 3));
                let h2 = hexv(s.get_char(k + 4));
                let h3 = hexv(s.get_char(k + 5));
                if h0 < 0 || h1 < 0 || h2 < 0 || h3 < 0 {
                    proof {
                        assert(u_escape_val(s@, k as int + 2) < 0);
                    }
                    return None;
                }
                let v: u32 = (h0 as u32) * 0x1000 + (h1 as u32) * 0x100 + (h2 as u32) * 0x10
                    + (h3 as u32);
                proof {
                    assert(v as int == u_escape_val(s@, k as int + 2));
                }
                if v >= 0xD800 && v < 0xE000 {
                    return None;
                }
                let ch = crate::sys::char_from_code(v);
                let ghost pre = acc@;
                crate::sys::push_char(&mut acc, ch);
                proof {
                    if rstr_body(s@, k as int + 6) is Some {
                        let t = rstr_body(s@, k as int + 6)->0;
                        lemma_compose_prepend(pre, ch, t.0);
                    }
                }
                k = k + 6;
            } else {
                let ch: char = if e == '"' {
                    '"'
                } else if e == '\\' {
                    '\\'
                } else if e == '/' {
                    '/'
                } else if e == 'b' {
                    '\u{0008}'
                } else if e == 'f' {
                    '\u{000C}'
                } else if e == 'n' {
                    '\n'
                } else if e == 'r' {
                    '\r'
                } else if e == 't' {
                    '\t'
                } else {
                    return None;
                };
                proof {
                    assert(esc_code(s@[k as int + 1]) == Some(ch));
                }
                let ghost pre = acc@;
                crate::sys::push_char(&mut acc, ch);
                proof {
                    if rstr_body(s@, k as int + 2) is Some {
                        let t = rstr_body(s@, k as int + 2)->0;
                        lemma_compose_prepend(pre, ch, t.0);
                    }
                }
                k = k + 2;
            }
        } else {
            if (c as u32) < 32 {
                return None;
            }
            let ghost pre = acc@;
            crate::sys::push_char(&mut acc, c);
            proof {
                if rstr_body(s@, k as int + 1) is Some {
                    let t = rstr_body(s@, k as int + 1)->0;
                    lemma_compose_prepend(pre, c, t.0);
                }
            }
            k = k + 1;
        }
    }
}

/// Reads an unsigned JSON integer valued at most `max`.
fn read_int(s: &str, i: usize, max: u64) -> (r: Option<(u64, usize)>)
    requires
        i <= s@.len(),
        max >= 9,
    ensures
        match rint(s@, i as int, max as int) {
            Some(t) => r matches Some(x) && x.0 as int == t.0 && x.1 as int == t.1,
            None => r is None,
        },
{
    let n = s.unicode_len();
    if i >= n {
        return None;
    }
    let c0 = s.get_char(i);
    if !(c0 >= '0' && c0 <= '9') {
        return None;
    }
    if c0 == '0' {
        return Some((0, i + 1));
    }
    let mut k: usize = i;
    let mut acc: u64 = 0;
    let mut over: bool = false;
    loop
        invariant
            i <= k <= n,
            n == s@.len(),
            crate::text::all_digits(s@.subrange(i as int, k as int)),
            digits_end(s@, i as int) == digits_end(s@, k as int),
            max >= 9,
            !over ==> acc as int == digits_val(s@.subrange(i as int, k as int)) && acc <= max,
            over ==> digits_val(s@.subrange(i as int, k as int)) > max,
            digits_val(s@.subrange(i as int, k as int)) >= 0,
        ensures
            i <= k <= n,
            digits_end(s@, i as int) == k as int,
            !over ==> acc as int == digits_val(s@.subrange(i as int, k as int)) && acc <= max,
            over ==> digits_val(s@.subrange(i as int, k as int)) > max,
        decreases n - k,
    {
        if k >= n {
            break;
        }
        let c = s.get_char(k);
        if !(c >= '0' && c <= '9') {
            break;
        }
        let d: u64 = (c as u32 as u64) - 48;
        let ghost pre = s@.subrange(i as int, k as int);
        proof {
            let t = s@.subrange(i as int, k as int + 1);
            assert(t.drop_last() =~= pre);
            assert(t.last() == s@[k as int]);
            assert(d == crate::text::digit_val(s@[k as int]));
            assert(crate::text::all_digits(t)) by {
                assert(forall|q: int| 0 <= q < t.len() - 1 ==> #[trigger] t[q] == pre[q]);
            }
        }
        if over {
            proof {
                assert(digits_val(s@.subrange(i as int, k as int + 1))
                    == digits_val(pre) * 10 + d);
                assert(digits_val(pre) * 10 >= digits_val(pre)) by (nonlinear_arith)
                    requires digits_val(pre) >= 0;
            }
        } else if acc > (max - d) / 10 {
            proof {
                crate::tstamp::lemma_split_div(max as int - d, max as int - d, 10);
                assert(acc * 10 + d > max);
                assert(digits_val(s@.subrange(i as int, k as int + 1))
                    == acc * 10 + d);
            }
            over = true;
        } else {
            proof {
                crate::tstamp::lemma_split_div(max as int - d, max as int - d, 10);
                assert(acc * 10 + d <= max);
                assert(digits_val(s@.subrange(i as int, k as int + 1))
                    == acc * 10 + d);
            }
            acc = acc * 10 + d;
        }
        k = k + 1;
    }
    if over {
        None
    } else {
        Some((acc, k))
    }
}

/// The entries of an executable metadata vector, as the spec sees them.
pub open spec fn meta_view(v: Seq<(String, crate::manifest::MetaValue)>) -> Seq<
    (Seq<char>, MetaValV),
> {
    v.map_values(|e: (String, crate::manifest::MetaValue)| (e.0@, meta_value_view(e.1)))
}

proof fn lemma_meta_view_push(
    v: Seq<(String, crate::manifest::MetaValue)>, e: (String, crate::manifest::MetaValue),
)
    ensures
        meta_view(v.push(e)) == meta_view(v).push((e.0@, meta_value_view(e.1))),
{
    assert(meta_view(v.push(e)) =~= meta_view(v).push((e.0@, meta_value_view(e.1))));
}

/// Reads the metadata object from its opening brace.
#[verifier::rlimit(100)]
fn read_meta(s: &str, i: usize) -> (r: Option<(Vec<(String, crate::manifest::MetaValue)>, usize)>)
    requires
        i <= s@.len(),
    ensures
        match rmeta(s@, i as int) {
            Some(t) => r matches Some(x) && meta_view(x.0@) == t.0 && x.1 as int == t.1
                && (i as int) < x.1 as int && x.1 <= s@.len(),
            None => r is None,
        },
{
    let n = s.unicode_len();
    if i >= n || s.get_char(i) != '{' {
        return None;
    }
    let j = ws_to(s, i + 1);
    if j < n && s.get_char(j) == '}' {
        let out: Vec<(String, crate::manifest::MetaValue)> = Vec::new();
        proof {
            assert(meta_view(out@) =~= Seq::<(Seq<char>, MetaValV)>::empty());
        }
        return Some((out, j + 1));
    }
    let ghost j0 = j as int;
    let mut acc: Vec<(String, crate::manifest::MetaValue)> = Vec::new();
    let mut k: usize = j;
    proof {
        assert(meta_view(acc@) =~= Seq::<(Seq<char>, MetaValV)>::empty());
    }
    loop
        invariant
            0 <= j0 <= k as int,
            (i as int) < j0,
            k <= n,
            n == s@.len(),
            rmeta(s@, i as int) == rmeta_members(s@, j0, Seq::empty()),
            rmeta_members(s@, j0, Seq::empty()) == rmeta_members(s@, k as int, meta_view(acc@)),
        decreases n - k,
    {
        if k >= n || s.get_char(k) != '"' {
            return None;
        }
        let kv = match read_str_body(s, k + 1) {
            Some(x) => x,
            None => {
                return None;
            },
        };
        let (key, j1) = kv;
        proof {
            lemma_rstr_bounds(s@, k as int + 1);
        }
        let j2 = ws_to(s, j1);
        if j2 >= n || s.get_char(j2) != ':' {
            return None;
        }
        let j3 = ws_to(s, j2 + 1);
        let val: crate::manifest::MetaValue;
        let j4: usize;
        if j3 < n && s.get_char(j3) == '"' {
            let vv = match read_str_body(s, j3 + 1) {
                Some(x) => x,
                None => {
                    return None;
                },
            };
            proof {
                lemma_rstr_bounds(s@, j3 as int + 1);
            }
            val = crate::manifest::MetaValue::Str(vv.0);
            j4 = vv.1;
        } else {
            let je = match skip_value(s, j3, VALUE_DEPTH) {
                Some(x) => x,
                None => {
                    return None;
                },
            };
            proof {
                lemma_rvalue_bounds(s@, j3 as int, VALUE_DEPTH as nat);
            }
            val = crate::manifest::MetaValue::Raw(s.substring_char(j3, je).to_owned());
            j4 = je;
        }
        let ghost acc_old = acc@;
        let ghost key_v = key@;
        let ghost val_v = meta_value_view(val);
        acc.push((key, val));
        proof {
            assert(acc@ == acc_old.push((acc@[acc@.len() - 1].0, acc@[acc@.len() - 1].1)));
            lemma_meta_view_push(acc_old, acc@[acc@.len() - 1]);
            assert(meta_view(acc@) == meta_view(acc_old).push((key_v, val_v)));
        }
        let j5 = ws_to(s, j4);
        if j5 < n {
            let c5 = s.get_char(j5);
            if c5 == ',' {
                let j6 = ws_to(s, j5 + 1);
                proof {
                    assert((k as int) < (j6 as int) && (j6 as int) <= s@.len());
                }
                k = j6;
                continue;
            }
            if c5 == '}' {
                return Some((acc, j5 + 1));
            }
        }
        return None;
    }
}

/// The partially assigned fields the reader accumulates.
struct FieldsAcc {
    id: Option<String>,
    version: Option<u16>,
    node: Option<String>,
    data_type: Option<String>,
    data_size: Option<usize>,
    data_hash: Option<String>,
    metadata: Option<Vec<(String, crate::manifest::MetaValue)>>,
}

spec fn opt_str_view(o: Option<String>) -> Option<Seq<char>> {
    match o {
        Some(v) => Some(v@),
        None => None,
    }
}

spec fn acc_view(a: FieldsAcc) -> JsonFields {
    JsonFields {
        id: opt_str_view(a.id),
        version: match a.version {
            Some(v) => Some(v as int),
            None => None,
        },
        node: opt_str_view(a.node),
        data_type: opt_str_view(a.data_type),
        data_size: match a.data_size {
            Some(v) => Some(v as int),
            None => None,
        },
        data_hash: opt_str_view(a.data_hash),
        metadata: match a.metadata {
            Some(v) => Some(meta_view(v@)),
            None => None,
        },
    }
}

/// Advances over decimal digits.
fn digits_to(s: &str, i: usize) -> (r: usize)
    requires
        i <= s@.len(),
    ensures
        r as int == digits_end(s@, i as int),
        i <= r <= s@.len(),
{
    proof {
        lemma_digits_end_bounds(s@, i as int);
    }
    let n = s.unicode_len();
    let mut k: usize = i;
    loop
        invariant
            i <= k <= n,
            n == s@.len(),
            digits_end(s@, i as int) == digits_end(s@, k as int),
        ensures
            i <= k <= n,
            k as int == digits_end(s@, i as int),
        decreases n - k,
    {
        if k >= n {
            break;
        }
        let c = s.get_char(k);
        if !(c >= '0' && c <= '9') {
            break;
        }
        k = k + 1;
    }
    k
}

/// Reads over a JSON number.
fn skip_number(s: &str, i: usize) -> (r: Option<usize>)
    requires
        i <= s@.len(),
    ensures
        match rnum_end(s@, i as int) {
            Some(j) => r matches Some(x) && x as int == j,
            None => r is None,
        },
{
    let n = s.unicode_len();
    let i1 = if i < n && s.get_char(i) == '-' {
        i + 1
    } else {
        i
    };
    if i1 >= n {
        return None;
    }
    let c1 = s.get_char(i1);
    if !(c1 >= '0' && c1 <= '9') {
        return None;
    }
    let i2 = if c1 == '0' {
        i1 + 1
    } else {
        digits_to(s, i1)
    };
    let i3: usize;
    if i2 < n && s.get_char(i2) == '.' {
        if i2 + 1 < n {
            let cf = s.get_char(i2 + 1);
            if cf >= '0' && cf <= '9' {
                i3 = digits_to(s, i2 + 1);
            } else {
                return None;
            }
        } else {
            return None;
        }
    } else {
        i3 = i2;
    }
    if i3 < n {
        let ce = s.get_char(i3);
        if ce == 'e' || ce == 'E' {
            let i4: usize;
            if i3 + 1 < n {
                let cs = s.get_char(i3 + 1);
                if cs == '+' || cs == '-' {
                    i4 = i3 + 2;
                } else {
                    i4 = i3 + 1;
                }
            } else {
                i4 = i3 + 1;
            }
            if i4 < n {
                let cd = s.get_char(i4);
                if cd >= '0' && cd <= '9' {
                    return Some(digits_to(s, i4));
                }
            }
            return None;
        }
    }
    Some(i3)
}

/// Reads over one JSON value, nesting at most `depth` levels deep.
fn skip_value(s: &str, i: usize, depth: u32) -> (r: Option<usize>)
    requires
        i <= s@.len(),
    ensures
        match rvalue_end(s@, i as int, depth as nat) {
            Some(j) => r matches Some(x) && x as int == j,
            None => r is None,
        },
    decreases depth, s@.len() - i, 0int,
{
    let n = s.unicode_len();
    if i >= n {
        return None;
    }
    let c = s.get_char(i);
    if c == '"' {
        return match read_str_body(s, i + 1) {
            Some(x) => Some(x.1),
            None => None,
        };
    }
    if c == '{' {
        if depth == 0 {
            return None;
        }
        let j = ws_to(s, i + 1);
        if j < n && s.get_char(j) == '}' {
            return Some(j + 1);
        }
        return skip_obj_tail(s, j, depth - 1);
    }
    if c == '[' {
        if depth == 0 {
            return None;
        }
        let j = ws_to(s, i + 1);
        if j < n && s.get_char(j) == ']' {
            return Some(j + 1);
        }
        return skip_arr_tail(s, j, depth - 1);
    }
    if c == 't' {
        if n - i >= 4 && s.get_char(i + 1) == 'r' && s.get_char(i + 2) == 'u'
            && s.get_char(i + 3) == 'e' {
            return Some(i + 4);
        }
        return None;
    }
    if c == 'f' {
        if n - i >= 5 && s.get_char(i + 1) == 'a' && s.get_char(i + 2) == 'l'
            && s.get_char(i + 3) == 's' && s.get_char(i + 4) == 'e' {
            return Some(i + 5);
        }
        return None;
    }
    if c == 'n' {
        if n - i >= 4 && s.get_char(i + 1) == 'u' && s.get_char(i + 2) == 'l'
            && s.get_char(i + 3) == 'l' {
            return Some(i + 4);
        }
        return None;
    }
    skip_number(s, i)
}

/// Reads over the elements of an array, from one element's start to the
/// closing bracket.
fn skip_arr_tail(s: &str, i: usize, depth: u32) -> (r: Option<usize>)
    requires
        i <= s@.len(),
    ensures
        match rarr_tail(s@, i as int, depth as nat) {
            Some(j) => r matches Some(x) && x as int == j,
            None => r is None,
        },
    decreases depth, s@.len() - i, 1int,
{
    let n = s.unicode_len();
    let ghost i0 = i as int;
    let mut k: usize = i;
    loop
        invariant
            0 <= i0 <= k as int,
            i0 == i as int,
            k <= n,
            n == s@.len(),
            rarr_tail(s@, i0, depth as nat) == rarr_tail(s@, k as int, depth as nat),
        decreases n - k,
    {
        let j = match skip_value(s, k, depth) {
            Some(x) => x,
            None => {
                return None;
            },
        };
        proof {
            lemma_rvalue_bounds(s@, k as int, depth as nat);
        }
        let j5 = ws_to(s, j);
        if j5 < n {
            let c5 = s.get_char(j5);
            if c5 == ',' {
                let j6 = ws_to(s, j5 + 1);
                proof {
                    assert((k as int) < (j6 as int) && (j6 as int) <= s@.len());
                }
                k = j6;
                continue;
            }
            if c5 == ']' {
                return Some(j5 + 1);
            }
        }
        return None;
    }
}

/// Reads over the members of an object, from one key's start to the
/// closing brace.
fn skip_obj_tail(s: &str, i: usize, depth: u32) -> (r: Option<usize>)
    requires
        i <= s@.len(),
    ensures
        match robj_tail(s@, i as int, depth as nat) {
            Some(j) => r matches Some(x) && x as int == j,
            None => r is None,
        },
    decreases depth, s@.len() - i, 1int,
{
    let n = s.unicode_len();
    let ghost i0 = i as int;
    let mut k: usize = i;
    loop
        invariant
            0 <= i0 <= k as int,
            i0 == i as int,
            k <= n,
            n == s@.len(),
            robj_tail(s@, i0, depth as nat) == robj_tail(s@, k as int, depth as nat),
        decreases n - k,
    {
        if k >= n || s.get_char(k) != '"' {
            return None;
        }
        let kv = match read_str_body(s, k + 1) {
            Some(x) => x,
            None => {
                return None;
            },
        };
        proof {
            lemma_rstr_bounds(s@, k as int + 1);
        }
        let j2 = ws_to(s, kv.1);
        if j2 >= n || s.get_char(j2) != ':' {
            return None;
        }
        let j3 = ws_to(s, j2 + 1);
        let j = match skip_value(s, j3, depth) {
            Some(x) => x,
            None => {
                return None;
            },
        };
        proof {
            lemma_rvalue_bounds(s@, j3 as int, depth as nat);
        }
        let j5 = ws_to(s, j);
        if j5 < n {
            let c5 = s.get_char(j5);
            if c5 == ',' {
                let j6 = ws_to(s, j5 + 1);
                proof {
                    assert((k as int) < (j6 as int) && (j6 as int) <= s@.len());
                }
                k = j6;
                continue;
            }
            if c5 == '}' {
                return Some(j5 + 1);
            }
        }
        return None;
    }
}

/// Reads the value of one known key and merges it into the fields.
/// `a0` names the fields as they stand at the call.
#[verifier::rlimit(100)]
fn read_field_value(
    s: &str, i: usize, acc: &mut FieldsAcc, key: &str, Ghost(a0): Ghost<JsonFields>,
) -> (r: Option<usize>)
    requires
        i <= s@.len(),
        a0 == acc_view(*old(acc)),
    ensures
        match rfield(s@, i as int, a0, key@) {
            Some(t) => r matches Some(x) && acc_view(*final(acc)) == t.0 && x as int == t.1
                && (i as int) < x as int && x <= s@.len(),
            None => r is None,
        },
{
    proof {
        reveal_strlit("id");
        reveal_strlit("version");
        reveal_strlit("node");
        reveal_strlit("data_type");
        reveal_strlit("data_size");
        reveal_strlit("data_hash");
        reveal_strlit("metadata");
        assert("id"@ =~= seq!['i', 'd']);
        assert("version"@ =~= seq!['v', 'e', 'r', 's', 'i', 'o', 'n']);
        assert("node"@ =~= seq!['n', 'o', 'd', 'e']);
        assert("data_type"@ =~= seq!['d', 'a', 't', 'a', '_', 't', 'y', 'p', 'e']);
        assert("data_size"@ =~= seq!['d', 'a', 't', 'a', '_', 's', 'i', 'z', 'e']);
        assert("data_hash"@ =~= seq!['d', 'a', 't', 'a', '_', 'h', 'a', 's', 'h']);
        assert("metadata"@ =~= seq!['m', 'e', 't', 'a', 'd', 'a', 't', 'a']);
    }
    let n = s.unicode_len();
    if str_is(key, "id") {
        if acc.id.is_some() {
            return None;
        }
        if i >= n || s.get_char(i) != '"' {
            return None;
        }
        let sv = match read_str_body(s, i + 1) {
            Some(x) => x,
            None => {
                return None;
            },
        };
        proof {
            lemma_rstr_bounds(s@, i as int + 1);
        }
        acc.id = Some(sv.0);
        Some(sv.1)
    } else if str_is(key, "version") {
        if acc.version.is_some() {
            return None;
        }
        let iv = match read_int(s, i, 65535) {
            Some(x) => x,
            None => {
                return None;
            },
        };
        proof {
            lemma_rint_bounds(s@, i as int, 65535);
        }
        acc.version = Some(iv.0 as u16);
        Some(iv.1)
    } else if str_is(key, "node") {
        if acc.node.is_some() {
            return None;
        }
        if i >= n || s.get_char(i) != '"' {
            return None;
        }
        let sv = match read_str_body(s, i + 1) {
            Some(x) => x,
            None => {
                return None;
            },
        };
        proof {
            lemma_rstr_bounds(s@, i as int + 1);
        }
        acc.node = Some(sv.0);
        Some(sv.1)
    } else if str_is(key, "data_type") {
        if acc.data_type.is_some() {
            return None;
        }
        if i >= n || s.get_char(i) != '"' {
            return None;
        }
        let sv = match read_str_body(s, i + 1) {
            Some(x) => x,
            None => {
                return None;
            },
        };
        proof {
            lemma_rstr_bounds(s@, i as int + 1);
        }
        acc.data_type = Some(sv.0);
        Some(sv.1)
    } else if str_is(key, "data_size") {
        if acc.data_size.is_some() {
            return None;
        }
        let iv = match read_int(s, i, usize::MAX as u64) {
            Some(x) => x,
            None => {
                return None;
            },
        };
        proof {
            lemma_rint_bounds(s@, i as int, usize::MAX as int);
        }
        acc.data_size = Some(iv.0 as usize);
        Some(iv.1)
    } else if str_is(key, "data_hash") {
        if acc.data_hash.is_some() {
            return None;
        }
        if i >= n || s.get_char(i) != '"' {
            return None;
        }
        let sv = match read_str_body(s, i + 1) {
            Some(x) => x,
            None => {
                return None;
            },
        };
        proof {
            lemma_rstr_bounds(s@, i as int + 1);
        }
        acc.data_hash = Some(sv.0);
        Some(sv.1)
    } else if str_is(key, "metadata") {
        if acc.metadata.is_some() {
            return None;
        }
        let mv = match read_meta(s, i) {
            Some(x) => x,
            None => {
                return None;
            },
        };
        acc.metadata = Some(mv.0);
        Some(mv.1)
    } else {
        // an unknown key: its value is read over and ignored
        let sk = skip_value(s, i, VALUE_DEPTH);
        proof {
            if rvalue_end(s@, i as int, VALUE_DEPTH as nat) is Some {
                lemma_rvalue_bounds(s@, i as int, VALUE_DEPTH as nat);
            }
        }
        match sk {
            Some(j) => Some(j),
            None => None,
        }
    }
}

/// Reads the manifest object's members from the first key.
#[verifier::rlimit(100)]
#[verifier::spinoff_prover]
fn read_fields(s: &str, i: usize) -> (r: Option<(FieldsAcc, usize)>)
    requires
        i <= s@.len(),
    ensures
        match rmembers(s@, i as int, empty_fields()) {
            Some(t) => r matches Some(x) && acc_view(x.0) == t.0 && x.1 as int == t.1
                && x.1 <= s@.len(),
            None => r is None,
        },
{
    let n = s.unicode_len();
    let ghost i0 = i as int;
    let mut acc = FieldsAcc {
        id: None,
        version: None,
        node: None,
        data_type: None,
        data_size: None,
        data_hash: None,
        metadata: None,
    };
    let mut k: usize = i;
    proof {
        assert(acc_view(acc) == empty_fields());
    }
    loop
        invariant
            0 <= i0 <= k as int,
            i0 == i as int,
            k <= n,
            n == s@.len(),
            rmembers(s@, i0, empty_fields()) == rmembers(s@, k as int, acc_view(acc)),
        decreases n - k,
    {
        proof {
            reveal_strlit("id");
            reveal_strlit("version");
            reveal_strlit("node");
            reveal_strlit("data_type");
            reveal_strlit("data_size");
            reveal_strlit("data_hash");
            reveal_strlit("metadata");
            assert("id"@ =~= seq!['i', 'd']);
            assert("version"@ =~= seq!['v', 'e', 'r', 's', 'i', 'o', 'n']);
            assert("node"@ =~= seq!['n', 'o', 'd', 'e']);
            assert("data_type"@ =~= seq!['d', 'a', 't', 'a', '_', 't', 'y', 'p', 'e']);
            assert("data_size"@ =~= seq!['d', 'a', 't', 'a', '_', 's', 'i', 'z', 'e']);
            assert("data_hash"@ =~= seq!['d', 'a', 't', 'a', '_', 'h', 'a', 's', 'h']);
            assert("metadata"@ =~= seq!['m', 'e', 't', 'a', 'd', 'a', 't', 'a']);
        }
        if k >= n || s.get_char(k) != '"' {
            return None;
        }
        let kv = match read_str_body(s, k + 1) {
            Some(x) => x,
            None => {
                return None;
            },
        };
        let (key, j1) = kv;
        proof {
            lemma_rstr_bounds(s@, k as int + 1);
        }
        let j2 = ws_to(s, j1);
        if j2 >= n || s.get_char(j2) != ':' {
            return None;
        }
        let j3 = ws_to(s, j2 + 1);
        let ghost a0g = acc_view(acc);
        let j4: usize = match read_field_value(s, j3, &mut acc, key.as_str(), Ghost(a0g)) {
            Some(x) => x,
            None => {
                return None;
            },
        };
        let j5 = ws_to(s, j4);
        if j5 < n {
            let c5 = s.get_char(j5);
            if c5 == ',' {
                let j6 = ws_to(s, j5 + 1);
                proof {
                    assert((k as int) < (j6 as int) && (j6 as int) <= s@.len());
                }
                k = j6;
                continue;
            }
            if c5 == '}' {
                return Some((acc, j5 + 1));
            }
        }
        return None;
    }
}

/// The position bound of an accepted integer field.
proof fn lemma_rint_bounds(s: Seq<char>, i: int, max: int)
    requires
        0 <= i <= s.len(),
        rint(s, i, max) is Some,
    ensures
        i < (rint(s, i, max)->0).1 <= s.len(),
{
    if i < s.len() && is_digit(s[i]) && s[i] != '0' {
        lemma_digits_end_bounds(s, i);
        assert(digits_end(s, i) > i);
    }
}

/// Reads a manifest from a general JSON text, applying the defaults for
/// absent keys; returns exactly what `relaxed_manifest` denotes.
pub fn read_manifest(data: &str) -> (r: Option<crate::manifest::Manifest>)
    ensures
        match relaxed_manifest(data@) {
            Some(f) => r matches Some(m) && fields_match(m, f),
            None => r is None,
        },
{
    let n = data.unicode_len();
    let i0 = ws_to(data, 0);
    if i0 >= n || data.get_char(i0) != '{' {
        return None;
    }
    let i1 = ws_to(data, i0 + 1);
    let parsed: (FieldsAcc, usize);
    if i1 < n && data.get_char(i1) == '}' {
        parsed = (
            FieldsAcc {
                id: None,
                version: None,
                node: None,
                data_type: None,
                data_size: None,
                data_hash: None,
                metadata: None,
            },
            i1 + 1,
        );
        proof {
            assert(acc_view(parsed.0) == empty_fields());
        }
    } else {
        parsed = match read_fields(data, i1) {
            Some(x) => x,
            None => {
                return None;
            },
        };
    }
    let (acc, endpos) = parsed;
    let j = ws_to(data, endpos);
    if j < n {
        return None;
    }
    let id = match acc.id {
        Some(v) => v,
        None => {
            return None;
        },
    };
    let version = match acc.version {
        Some(v) => v,
        None => crate::manifest::MANIFEST_VERSION,
    };
    let node = match acc.node {
        Some(v) => v,
        None => String::new(),
    };
    let data_type = match acc.data_type {
        Some(v) => v,
        None => String::new(),
    };
    let data_size = match acc.data_size {
        Some(v) => v,
        None => 0,
    };
    let data_hash = match acc.data_hash {
        Some(v) => v,
        None => String::new(),
    };
    let metadata = match acc.metadata {
        Some(v) => v,
        None => Vec::new(),
    };
    let m = crate::manifest::Manifest {
        id,
        version,
        node,
        data_type,
        data_size,
        data_hash,
        metadata,
    };
    Some(m)
}

} // verus!
