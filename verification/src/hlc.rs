//! Node-aware HLC identifiers: grammar, parsing, validation and the
//! hybrid-logical-clock generator.
//!
//! Format: `YYYYMMDD` `T` `HHMMSS[mmm]` `.` `lc` (exactly `w` digits) `Z`
//! `-` node, optionally followed by `-` and `z` lowercase hexadecimal
//! padding digits.  The node is one or more ASCII letters, digits or
//! underscores.

use vstd::prelude::*;

use crate::text::{
    all_digits, all_lower_hex, all_node_chars, check_digits, check_lower_hex, check_node_chars,
    digits_val, lex_lt, num_str, pow10, render_num, scan_field_u32,
};
use crate::tstamp::{
    scan_timestamp, spec_ts_fields, spec_ts_fields_ok, ts_str, TimeUnit, UtcTime,
};
use crate::wid::{pad_ok, state_lt, WidError};

verus! {

/// A node name: non-empty, ASCII letters, digits and underscore only.
pub open spec fn valid_node(s: Seq<char>) -> bool {
    s.len() > 0 && all_node_chars(s)
}

/// Whether a node-and-padding tail carries a padding block: the string is
/// long enough, ends in `z` hexadecimal digits after a `-`, and what lies
/// between the fixed prefix and that separator is a node name.
pub open spec fn hlc_has_pad(s: Seq<char>, w: int, z: int, unit: TimeUnit) -> bool {
    let ns = 12 + unit.spec_time_digits() + w;
    &&& z > 0
    &&& s.len() > ns + 1 + z
    &&& s[s.len() - z - 1] == '-'
    &&& all_lower_hex(s.subrange(s.len() - z, s.len() as int))
    &&& all_node_chars(s.subrange(ns, s.len() - z - 1))
}

/// The HLC identifier grammar: the plain prefix, a `-`, a node name, and an
/// optional `-`-separated padding block.
pub open spec fn hlc_grammar_ok(s: Seq<char>, w: int, z: int, unit: TimeUnit) -> bool {
    let td = unit.spec_time_digits();
    let ns = 12 + td + w;
    &&& s.len() > ns
    &&& all_digits(s.subrange(0, 8))
    &&& s[8] == 'T'
    &&& all_digits(s.subrange(9, 9 + td))
    &&& s[9 + td] == '.'
    &&& all_digits(s.subrange(10 + td, 10 + td + w))
    &&& s[10 + td + w] == 'Z'
    &&& s[11 + td + w] == '-'
    &&& (hlc_has_pad(s, w, z, unit) || all_node_chars(s.subrange(ns, s.len() as int)))
}

/// The node block of a grammatical HLC identifier.
pub open spec fn hlc_node_str(s: Seq<char>, w: int, z: int, unit: TimeUnit) -> Seq<char> {
    let ns = 12 + unit.spec_time_digits() + w;
    if hlc_has_pad(s, w, z, unit) {
        s.subrange(ns, s.len() - z - 1)
    } else {
        s.subrange(ns, s.len() as int)
    }
}

/// The numeric value of the logical-counter block.
pub open spec fn hlc_lc_val(s: Seq<char>, w: int, unit: TimeUnit) -> int {
    digits_val(s.subrange(10 + unit.spec_time_digits(), 10 + unit.spec_time_digits() + w))
}

/// A string is a valid HLC identifier when the grammar matches, the
/// timestamp fields are legal, and the counter fits in a `u32`.
pub open spec fn hlc_ok(s: Seq<char>, w: int, z: int, unit: TimeUnit) -> bool {
    &&& w > 0
    &&& hlc_grammar_ok(s, w, z, unit)
    &&& spec_ts_fields_ok(s, unit)
    &&& hlc_lc_val(s, w, unit) <= u32::MAX
}

/// Components of a successfully parsed HLC identifier.
#[derive(Debug, Clone, PartialEq)]
pub struct ParsedHlcWid {
    /// The input string as parsed.
    pub raw: String,
    /// The decoded UTC timestamp.
    pub timestamp: UtcTime,
    /// The decoded logical counter.
    pub logical_counter: u32,
    /// The node name.
    pub node: String,
    /// The padding block without its leading `-`, if one was present.
    pub padding: Option<String>,
}

impl ParsedHlcWid {
    /// What parsing promises about each component.
    pub open spec fn matches(self, s: Seq<char>, w: int, z: int, unit: TimeUnit) -> bool {
        &&& self.raw@ == s
        &&& self.timestamp == spec_ts_fields(s, unit)
        &&& self.logical_counter == hlc_lc_val(s, w, unit)
        &&& self.node@ == hlc_node_str(s, w, z, unit)
        &&& if hlc_has_pad(s, w, z, unit) {
            self.padding matches Some(p) && p@ == s.subrange(s.len() - z, s.len() as int)
        } else {
            self.padding is None
        }
    }
}

/// Checks the structural part of the HLC grammar.
fn check_hlc_shape(s: &str, w: usize, z: usize, unit: TimeUnit) -> (r: bool)
    requires
        w >= 1,
    ensures
        r == hlc_grammar_ok(s@, w as int, z as int, unit),
{
    let n = s.unicode_len();
    let td = unit.time_digits();
    let ns_wide: u128 = 12 + td as u128 + w as u128;
    if n as u128 <= ns_wide {
        return false;
    }
    let ns: usize = 12 + td + w;
    if !check_digits(s, 0, 8) {
        return false;
    }
    if s.get_char(8) != 'T' {
        return false;
    }
    if !check_digits(s, 9, 9 + td) {
        return false;
    }
    if s.get_char(9 + td) != '.' {
        return false;
    }
    if !check_digits(s, 10 + td, 10 + td + w) {
        return false;
    }
    if s.get_char(10 + td + w) != 'Z' {
        return false;
    }
    if s.get_char(11 + td + w) != '-' {
        return false;
    }
    let pad_shape = z > 0 && (n as u128 > ns_wide + 1 + z as u128) && s.get_char(n - z - 1) == '-'
        && check_lower_hex(s, n - z, n);
    if pad_shape {
        check_node_chars(s, ns, n - z - 1)
    } else {
        proof {
            assert(!hlc_has_pad(s@, w as int, z as int, unit));
        }
        check_node_chars(s, ns, n)
    }
}

/// Parses an HLC identifier for a specific time unit.
///
/// Fails with `InvalidW` when `w` is zero, `InvalidFormat` when the grammar
/// does not match or the counter overflows a `u32`, and `InvalidTimestamp`
/// when the grammar matches but the calendar does not.
pub fn parse_hlc_wid_with_unit(wid: &str, w: usize, z: usize, time_unit: TimeUnit) -> (r: Result<
    ParsedHlcWid,
    WidError,
>)
    ensures
        r is Ok <==> hlc_ok(wid@, w as int, z as int, time_unit),
        r matches Ok(p) ==> p.matches(wid@, w as int, z as int, time_unit)
            && p.timestamp.wf() && valid_node(p.node@),
        w == 0 <==> (r matches Err(e) && e is InvalidW),
        w > 0 && !hlc_grammar_ok(wid@, w as int, z as int, time_unit)
            ==> (r matches Err(e) && e matches WidError::InvalidFormat(f) && f@ == wid@),
        w > 0 && hlc_grammar_ok(wid@, w as int, z as int, time_unit)
            && !spec_ts_fields_ok(wid@, time_unit)
            ==> (r matches Err(e) && e is InvalidTimestamp),
        w > 0 && hlc_grammar_ok(wid@, w as int, z as int, time_unit)
            && spec_ts_fields_ok(wid@, time_unit)
            && hlc_lc_val(wid@, w as int, time_unit) > u32::MAX
            ==> (r matches Err(e) && e matches WidError::InvalidFormat(f) && f@ == wid@),
{
    if w == 0 {
        return Err(WidError::InvalidW);
    }
    if !check_hlc_shape(wid, w, z, time_unit) {
        return Err(WidError::InvalidFormat(wid.to_owned()));
    }
    let td = time_unit.time_digits();
    let n = wid.unicode_len();
    let ns: usize = 12 + td + w;
    let timestamp = match scan_timestamp(wid, time_unit) {
        Some(t) => t,
        None => {
            return Err(WidError::InvalidTimestamp);
        },
    };
    let logical_counter = match scan_field_u32(wid, 10 + td, 10 + td + w) {
        Some(v) => v,
        None => {
            return Err(WidError::InvalidFormat(wid.to_owned()));
        },
    };
    let has_pad = z > 0 && (n as u128 > ns as u128 + 1 + z as u128)
        && wid.get_char(n - z - 1) == '-' && check_lower_hex(wid, n - z, n)
        && check_node_chars(wid, ns, n - z - 1);
    proof {
        assert(has_pad == hlc_has_pad(wid@, w as int, z as int, time_unit));
    }
    let (node, padding) = if has_pad {
        (
            wid.substring_char(ns, n - z - 1).to_owned(),
            Some(wid.substring_char(n - z, n).to_owned()),
        )
    } else {
        (wid.substring_char(ns, n).to_owned(), None)
    };
    Ok(ParsedHlcWid { raw: wid.to_owned(), timestamp, logical_counter, node, padding })
}

/// Parses an HLC identifier in `sec` mode.
pub fn parse_hlc_wid(wid: &str, w: usize, z: usize) -> (r: Result<ParsedHlcWid, WidError>)
    ensures
        r is Ok <==> hlc_ok(wid@, w as int, z as int, TimeUnit::Sec),
        r matches Ok(p) ==> p.matches(wid@, w as int, z as int, TimeUnit::Sec)
            && p.timestamp.wf() && valid_node(p.node@),
        w == 0 <==> (r matches Err(e) && e is InvalidW),
{
    parse_hlc_wid_with_unit(wid, w, z, TimeUnit::Sec)
}

/// Validates an HLC identifier for a specific time unit.
pub fn validate_hlc_wid_with_unit(wid: &str, w: usize, z: usize, time_unit: TimeUnit) -> (r: bool)
    ensures
        r == hlc_ok(wid@, w as int, z as int, time_unit),
{
    parse_hlc_wid_with_unit(wid, w, z, time_unit).is_ok()
}

/// Validates an HLC identifier in `sec` mode.
pub fn validate_hlc_wid(wid: &str, w: usize, z: usize) -> (r: bool)
    ensures
        r == hlc_ok(wid@, w as int, z as int, TimeUnit::Sec),
{
    validate_hlc_wid_with_unit(wid, w, z, TimeUnit::Sec)
}

/// Whether a string is a usable node name.
fn is_valid_node(node: &str) -> (r: bool)
    ensures
        r == valid_node(node@),
{
    let n = node.unicode_len();
    let r = check_node_chars(node, 0, n);
    proof {
        assert(node@.subrange(0, n as int) =~= node@);
    }
    r
}

/// One `next` step of the hybrid logical clock on a clock reading `now`:
/// adopt a fresh physical time with a zero counter, otherwise advance the
/// counter, then apply counter rollover.
pub open spec fn hlc_next_step(pt0: int, lc0: int, now: int, max_lc: int, cap: int) -> (int, int) {
    let nc = if now > cap { cap } else { now };
    if nc > pt0 {
        (nc, 0)
    } else {
        hlc_rollover(pt0, lc0 + 1, max_lc, cap)
    }
}

/// Counter rollover: a counter beyond `max_lc` bumps the physical time by
/// one unit; at the very end of the representable range the state saturates.
pub open spec fn hlc_rollover(pt: int, lc: int, max_lc: int, cap: int) -> (int, int) {
    if lc <= max_lc {
        (pt, lc)
    } else if pt < cap {
        (pt + 1, 0)
    } else {
        (cap, max_lc)
    }
}

/// One `observe` step: merge a remote clock sample `(rpt, rlc)` on a local
/// clock reading `now`.  The new physical time is the maximum of the local
/// reading, the stored time and the remote time; the counter is chosen to
/// exceed everything already issued at that time, as the HLC algorithm
/// prescribes, then rollover applies.
pub open spec fn hlc_observe_step(
    pt0: int, lc0: int, now: int, rpt: int, rlc: int, max_lc: int, cap: int,
) -> (int, int) {
    let rc = if rpt > cap { cap } else { rpt };
    let nc = if now > cap { cap } else { now };
    let m1 = if nc > pt0 { nc } else { pt0 };
    let new_pt = if rc > m1 { rc } else { m1 };
    let lc1 = if new_pt == pt0 && new_pt == rc {
        (if lc0 > rlc { lc0 } else { rlc }) + 1
    } else if new_pt == pt0 {
        lc0 + 1
    } else if new_pt == rc {
        rlc + 1
    } else {
        0
    };
    hlc_rollover(new_pt, lc1, max_lc, cap)
}

/// Law: progress of the hybrid logical clock.
///
/// A `next` step keeps the state in bounds and strictly increases it unless
/// it was already saturated; the emitted counter never exceeds `max_lc`.
pub proof fn lemma_hlc_next_step(pt0: int, lc0: int, now: int, max_lc: int, cap: int)
    requires
        0 <= pt0 <= cap,
        0 <= lc0 <= max_lc,
        0 <= max_lc,
        0 <= now,
    ensures
        0 <= hlc_next_step(pt0, lc0, now, max_lc, cap).0 <= cap,
        0 <= hlc_next_step(pt0, lc0, now, max_lc, cap).1 <= max_lc,
        pt0 < cap || lc0 < max_lc ==> state_lt(
            pt0, lc0,
            hlc_next_step(pt0, lc0, now, max_lc, cap).0,
            hlc_next_step(pt0, lc0, now, max_lc, cap).1,
        ),
        pt0 == cap && lc0 == max_lc ==> hlc_next_step(pt0, lc0, now, max_lc, cap) == (pt0, lc0),
{
}

/// Law: causality of `observe`.
///
/// Merging a remote sample leaves the clock strictly ahead of both its own
/// prior state and the observed remote state, as long as neither already
/// sits at the end of the representable range.
pub proof fn lemma_hlc_observe_causal(
    pt0: int, lc0: int, now: int, rpt: int, rlc: int, max_lc: int, cap: int,
)
    requires
        0 <= pt0 <= cap,
        0 <= lc0 <= max_lc,
        0 <= rpt <= cap,
        0 <= rlc <= max_lc,
        0 <= max_lc,
        0 <= now,
        !(pt0 == cap && lc0 == max_lc),
        !(rpt == cap && rlc == max_lc),
    ensures
        0 <= hlc_observe_step(pt0, lc0, now, rpt, rlc, max_lc, cap).0 <= cap,
        0 <= hlc_observe_step(pt0, lc0, now, rpt, rlc, max_lc, cap).1 <= max_lc,
        state_lt(
            pt0, lc0,
            hlc_observe_step(pt0, lc0, now, rpt, rlc, max_lc, cap).0,
            hlc_observe_step(pt0, lc0, now, rpt, rlc, max_lc, cap).1,
        ),
        state_lt(
            rpt, rlc,
            hlc_observe_step(pt0, lc0, now, rpt, rlc, max_lc, cap).0,
            hlc_observe_step(pt0, lc0, now, rpt, rlc, max_lc, cap).1,
        ),
{
}

/// The identifier text of an HLC state, without the random padding block.
pub open spec fn hlc_core_str(pt: int, lc: int, w: nat, unit: TimeUnit, node: Seq<char>) -> Seq<
    char,
> {
    ts_str(pt, unit) + seq!['.'] + num_str(lc as nat, w) + seq!['Z'] + seq!['-'] + node
}

/// One link of a batch's clock chain: the j-th state follows from its
/// predecessor by `hlc_next_step` under some clock reading.
pub open spec fn hlc_batch_step(sts: Seq<(int, int)>, j: int, w: nat, unit: TimeUnit) -> bool {
    exists|now: int| 0 <= now && sts[j + 1] == #[trigger] hlc_next_step(
        sts[j].0, sts[j].1, now, pow10(w) - 1, unit.spec_tick_cap(),
    )
}

/// One element of a batch: the j-th identifier renders the state after the
/// j-th step for the generator's node, with a well-formed padding block.
pub open spec fn hlc_batch_elem(
    sts: Seq<(int, int)>, out: Seq<String>, j: int, w: nat, z: int, unit: TimeUnit,
    node: Seq<char>,
) -> bool {
    exists|p: Seq<char>| #![trigger pad_ok(p, z)] pad_ok(p, z) && out[j]@ == hlc_core_str(
        sts[j + 1].0, sts[j + 1].1, w, unit, node,
    ) + p
}

/// A batch drawn from the generator: a chain of clock states each one
/// `hlc_next_step` apart under some clock reading, with element `j` the
/// rendered identifier of the state after the j-th step.  `sts[0]` is the
/// state before the batch.
pub open spec fn hlc_batch(
    sts: Seq<(int, int)>, out: Seq<String>, w: nat, z: int, unit: TimeUnit, node: Seq<char>,
) -> bool {
    &&& sts.len() == out.len() + 1
    &&& forall|j: int| 0 <= j < out.len() ==> #[trigger] hlc_batch_step(sts, j, w, unit)
    &&& forall|j: int| 0 <= j < out.len()
        ==> #[trigger] hlc_batch_elem(sts, out, j, w, z, unit, node)
}

/// A batch extends by one step and its rendered identifier.
pub proof fn lemma_hlc_batch_push(
    sts: Seq<(int, int)>, out: Seq<String>, w: nat, z: int, unit: TimeUnit, node: Seq<char>,
    st2: (int, int), el: String, now: int, p: Seq<char>,
)
    requires
        hlc_batch(sts, out, w, z, unit, node),
        0 <= now,
        st2 == hlc_next_step(
            sts[sts.len() - 1].0, sts[sts.len() - 1].1, now, pow10(w) - 1,
            unit.spec_tick_cap(),
        ),
        pad_ok(p, z),
        el@ == hlc_core_str(st2.0, st2.1, w, unit, node) + p,
    ensures
        hlc_batch(sts.push(st2), out.push(el), w, z, unit, node),
{
    let sts2 = sts.push(st2);
    let out2 = out.push(el);
    assert(sts2.len() == out2.len() + 1);
    assert forall|j: int| 0 <= j < out2.len() implies #[trigger] hlc_batch_step(
        sts2, j, w, unit,
    ) by {
        if j < out.len() {
            assert(hlc_batch_step(sts, j, w, unit));
            let nw = choose|now3: int| 0 <= now3 && sts[j + 1] == #[trigger] hlc_next_step(
                sts[j].0, sts[j].1, now3, pow10(w) - 1, unit.spec_tick_cap(),
            );
            assert(sts2[j] == sts[j] && sts2[j + 1] == sts[j + 1]);
            assert(0 <= nw && sts2[j + 1] == hlc_next_step(
                sts2[j].0, sts2[j].1, nw, pow10(w) - 1, unit.spec_tick_cap(),
            ));
        } else {
            assert(sts2[j] == sts[sts.len() - 1] && sts2[j + 1] == st2);
            assert(0 <= now && sts2[j + 1] == hlc_next_step(
                sts2[j].0, sts2[j].1, now, pow10(w) - 1, unit.spec_tick_cap(),
            ));
        }
    }
    assert forall|j: int| 0 <= j < out2.len() implies #[trigger] hlc_batch_elem(
        sts2, out2, j, w, z, unit, node,
    ) by {
        if j < out.len() {
            assert(hlc_batch_elem(sts, out, j, w, z, unit, node));
            let q = choose|q: Seq<char>| #[trigger] pad_ok(q, z) && out[j]@ == hlc_core_str(
                sts[j + 1].0, sts[j + 1].1, w, unit, node,
            ) + q;
            assert(out2[j] == out[j] && sts2[j + 1] == sts[j + 1]);
            assert(pad_ok(q, z) && out2[j]@ == hlc_core_str(
                sts2[j + 1].0, sts2[j + 1].1, w, unit, node,
            ) + q);
        } else {
            assert(out2[j] == el && sts2[j + 1] == st2);
            assert(pad_ok(p, z) && out2[j]@ == hlc_core_str(
                sts2[j + 1].0, sts2[j + 1].1, w, unit, node,
            ) + p);
        }
    }
}

/// Law: monotonicity of rendered HLC identifiers.
///
/// Identifiers rendered by one node from strictly increasing (pt, lc) states
/// compare strictly increasing as strings, whatever padding each carries.
#[verifier::rlimit(100)]
#[verifier::spinoff_prover]
pub proof fn lemma_hlc_str_monotone(
    t1: int, c1: int, t2: int, c2: int, w: nat, z: int, unit: TimeUnit, node: Seq<char>,
    p1: Seq<char>, p2: Seq<char>,
)
    requires
        0 <= t1 <= unit.spec_tick_cap(),
        0 <= t2 <= unit.spec_tick_cap(),
        0 <= c1 < pow10(w),
        0 <= c2 < pow10(w),
        state_lt(t1, c1, t2, c2),
        pad_ok(p1, z),
        pad_ok(p2, z),
    ensures
        lex_lt(
            hlc_core_str(t1, c1, w, unit, node) + p1,
            hlc_core_str(t2, c2, w, unit, node) + p2,
        ),
{
    crate::tstamp::lemma_ts_str_wf(t1, unit);
    crate::tstamp::lemma_ts_str_wf(t2, unit);
    crate::text::lemma_num_str_len(c1 as nat, w);
    crate::text::lemma_num_str_len(c2 as nat, w);
    let a1 = ts_str(t1, unit);
    let a2 = ts_str(t2, unit);
    let b1 = seq!['.'] + num_str(c1 as nat, w);
    let b2 = seq!['.'] + num_str(c2 as nat, w);
    let tail1 = seq!['Z'] + seq!['-'] + node + p1;
    let tail2 = seq!['Z'] + seq!['-'] + node + p2;
    if t1 < t2 {
        crate::tstamp::lemma_ts_str_monotone(t1, t2, unit);
    } else {
        crate::text::lemma_num_str_monotone(c1 as nat, c2 as nat, w);
        crate::text::lemma_lex_lt_common_prefix(
            seq!['.'], num_str(c1 as nat, w), num_str(c2 as nat, w),
        );
    }
    crate::tstamp::lemma_lex_cat3(a1, b1, tail1, a2, b2, tail2);
    assert(a1 + b1 + tail1 =~= hlc_core_str(t1, c1, w, unit, node) + p1);
    assert(a2 + b2 + tail2 =~= hlc_core_str(t2, c2, w, unit, node) + p2);
}

/// Law: round trip of HLC generation and parsing.
///
/// Any identifier rendered from an in-range state by a valid node validates,
/// and parsing it recovers the same counter value and the same node.
pub proof fn lemma_hlc_round_trip(
    pt: int, lc: int, w: nat, z: int, unit: TimeUnit, node: Seq<char>, p: Seq<char>,
)
    requires
        1 <= w,
        0 <= pt <= unit.spec_tick_cap(),
        0 <= lc < pow10(w),
        lc <= u32::MAX,
        z >= 0,
        valid_node(node),
        pad_ok(p, z),
    ensures
        ({
            let s = hlc_core_str(pt, lc, w, unit, node) + p;
            &&& hlc_ok(s, w as int, z, unit)
            &&& hlc_lc_val(s, w as int, unit) == lc
            &&& hlc_node_str(s, w as int, z, unit) == node
            &&& spec_ts_fields(s, unit) == spec_ts_fields(ts_str(pt, unit), unit)
        }),
{
    let ts = ts_str(pt, unit);
    let s = hlc_core_str(pt, lc, w, unit, node) + p;
    let td = unit.spec_time_digits();
    let ns = 12 + td + w;
    crate::tstamp::lemma_ts_str_wf(pt, unit);
    crate::tstamp::lemma_ts_str_decode(pt, unit);
    crate::text::lemma_num_str_len(lc as nat, w);
    crate::text::lemma_num_str_val(lc as nat, w);
    assert(ts.len() == 9 + td);
    assert(s.len() == ns + node.len() + p.len());
    assert(s.subrange(0, 8) =~= ts.subrange(0, 8));
    assert(s[8] == ts[8]);
    assert(s.subrange(9, 9 + td) =~= ts.subrange(9, 9 + td));
    assert(s[9 + td] == '.');
    assert(s.subrange(10 + td, 10 + td + w) =~= num_str(lc as nat, w));
    assert(s[10 + td + w] == 'Z');
    assert(s[11 + td + w] == '-');
    if p.len() > 0 {
        assert(s.len() == ns + node.len() + z + 1);
        assert(s[s.len() - z - 1] == p[0]);
        assert(s.subrange(s.len() - z, s.len() as int) =~= p.subrange(1, p.len() as int));
        assert(s.subrange(ns as int, s.len() - z - 1) =~= node);
        assert(hlc_has_pad(s, w as int, z, unit));
    } else {
        assert(s.subrange(ns as int, s.len() as int) =~= node);
        assert(!hlc_has_pad(s, w as int, z, unit)) by {
            if hlc_has_pad(s, w as int, z, unit) {
                assert(s[s.len() - z - 1] == '-');
                assert(s.len() - z - 1 >= ns);
                assert(crate::text::is_node_char(node[s.len() - z - 1 - ns]));
            }
        }
    }
    assert(hlc_grammar_ok(s, w as int, z, unit));
    assert(s.subrange(0, 4) =~= ts.subrange(0, 4));
    assert(s.subrange(4, 6) =~= ts.subrange(4, 6));
    assert(s.subrange(6, 8) =~= ts.subrange(6, 8));
    assert(s.subrange(9, 11) =~= ts.subrange(9, 11));
    assert(s.subrange(11, 13) =~= ts.subrange(11, 13));
    assert(s.subrange(13, 15) =~= ts.subrange(13, 15));
    if unit is Ms {
        assert(s.subrange(15, 18) =~= ts.subrange(15, 18));
    }
    assert(spec_ts_fields(s, unit) == spec_ts_fields(ts, unit));
}

/// A snapshot of the hybrid logical clock.
#[derive(Debug, Clone, Copy, PartialEq, Eq, Structural)]
pub struct HLCState {
    /// Physical-time ticks.
    pub pt: i64,
    /// Logical counter.
    pub lc: i64,
}

/// Generator of node-aware HLC identifiers.
pub struct HLCWidGen {
    w: usize,
    z: usize,
    time_unit: TimeUnit,
    node: String,
    max_lc: i64,
    pt: i64,
    lc: i64,
    cached_tick: i64,
    cached_ts: String,
}

impl HLCWidGen {
    /// The generator's invariant: widths in range, the counter bound matches
    /// `w`, a valid node, the clock inside the codec's range, and a sound
    /// timestamp cache.
    pub closed spec fn wf(self) -> bool {
        &&& 1 <= self.w <= 18
        &&& self.max_lc == pow10(self.w as nat) - 1
        &&& valid_node(self.node@)
        &&& 0 <= self.pt <= self.time_unit.spec_tick_cap()
        &&& 0 <= self.lc <= self.max_lc
        &&& self.cached_tick >= -1
        &&& (self.cached_tick >= 0 ==> self.cached_tick <= self.time_unit.spec_tick_cap()
            && self.cached_ts@ == ts_str(self.cached_tick as int, self.time_unit))
    }

    /// The digit width of the counter field.
    pub closed spec fn spec_w(self) -> nat {
        self.w as nat
    }

    /// The width of the random padding block.
    pub closed spec fn spec_z(self) -> int {
        self.z as int
    }

    /// The generator's time unit.
    pub closed spec fn spec_unit(self) -> TimeUnit {
        self.time_unit
    }

    /// The node name.
    pub closed spec fn spec_node(self) -> Seq<char> {
        self.node@
    }

    /// The stored physical time.
    pub closed spec fn spec_pt(self) -> int {
        self.pt as int
    }

    /// The stored logical counter.
    pub closed spec fn spec_lc(self) -> int {
        self.lc as int
    }

    /// What the invariant gives every caller.
    pub proof fn lemma_wf_bounds(self)
        requires
            self.wf(),
        ensures
            1 <= self.spec_w() <= 18,
            0 <= self.spec_pt() <= self.spec_unit().spec_tick_cap(),
            0 <= self.spec_lc() < pow10(self.spec_w()),
            0 <= self.spec_z(),
            valid_node(self.spec_node()),
    {
        crate::text::lemma_pow10_monotone(0, self.spec_w());
    }

    /// Creates a generator in `sec` mode; rejects `w == 0` and bad nodes.
    /// The width is capped at 18 digits so that the counter bound `10^w`
    /// fits the generator's 64-bit state.
    pub fn new(node: String, w: usize, z: usize) -> (r: Result<HLCWidGen, WidError>)
        requires
            w <= 18,
        ensures
            w == 0 <==> (r matches Err(e) && e is InvalidW),
            w > 0 && !valid_node(node@) <==> (r matches Err(e) && e is InvalidNode),
            r matches Ok(g) ==> g.wf() && g.spec_w() == w && g.spec_z() == z
                && g.spec_unit() == TimeUnit::Sec && g.spec_node() == node@
                && g.spec_pt() == 0 && g.spec_lc() == 0,
            r is Ok <==> (w > 0 && valid_node(node@)),
    {
        Self::new_with_time_unit(node, w, z, TimeUnit::Sec)
    }

    /// Creates a generator with a chosen time unit; rejects `w == 0` and bad
    /// nodes.  The width is capped at 18 digits so that the counter bound
    /// `10^w` fits the generator's 64-bit state.
    pub fn new_with_time_unit(node: String, w: usize, z: usize, time_unit: TimeUnit) -> (r: Result<
        HLCWidGen,
        WidError,
    >)
        requires
            w <= 18,
        ensures
            w == 0 <==> (r matches Err(e) && e is InvalidW),
            w > 0 && !valid_node(node@) <==> (r matches Err(e) && e is InvalidNode),
            r matches Ok(g) ==> g.wf() && g.spec_w() == w && g.spec_z() == z
                && g.spec_unit() == time_unit && g.spec_node() == node@
                && g.spec_pt() == 0 && g.spec_lc() == 0,
            r is Ok <==> (w > 0 && valid_node(node@)),
    {
        if w == 0 {
            return Err(WidError::InvalidW);
        }
        if !is_valid_node(node.as_str()) {
            return Err(WidError::InvalidNode);
        }
        let max_lc = crate::text::pow10_i64(w) - 1;
        proof {
            crate::text::lemma_pow10_monotone(0, w as nat);
            assert(pow10(0) == 1);
        }
        Ok(HLCWidGen {
            w,
            z,
            time_unit,
            node,
            max_lc,
            pt: 0,
            lc: 0,
            cached_tick: -1,
            cached_ts: String::new(),
        })
    }

    /// Renders the timestamp of `tick`, re-rendering only when the tick
    /// changed since the last call.
    fn ts_for_tick(&mut self, tick: i64) -> (r: String)
        requires
            old(self).wf(),
            0 <= tick <= old(self).spec_unit().spec_tick_cap(),
        ensures
            final(self).wf(),
            r@ == ts_str(tick as int, old(self).spec_unit()),
            final(self).spec_w() == old(self).spec_w(),
            final(self).spec_z() == old(self).spec_z(),
            final(self).spec_unit() == old(self).spec_unit(),
            final(self).spec_node() == old(self).spec_node(),
            final(self).spec_pt() == old(self).spec_pt(),
            final(self).spec_lc() == old(self).spec_lc(),
    {
        if tick != self.cached_tick {
            self.cached_tick = tick;
            self.cached_ts = crate::tstamp::render_ts(tick, self.time_unit);
        }
        self.cached_ts.clone()
    }

    /// Merges a remote clock sample on a caller-supplied clock reading
    /// `now`; fails exactly when a remote value is negative, leaving the
    /// state unchanged.
    pub fn observe_at(&mut self, now: i64, remote_pt: i64, remote_lc: i64) -> (r: Result<
        (),
        WidError,
    >)
        requires
            old(self).wf(),
            now >= 0,
            remote_lc < i64::MAX,
        ensures
            final(self).wf(),
            final(self).spec_w() == old(self).spec_w(),
            final(self).spec_z() == old(self).spec_z(),
            final(self).spec_unit() == old(self).spec_unit(),
            final(self).spec_node() == old(self).spec_node(),
            remote_pt < 0 || remote_lc < 0 <==> (r matches Err(e) && e is InvalidRemoteClock),
            r is Ok <==> remote_pt >= 0 && remote_lc >= 0,
            remote_pt < 0 || remote_lc < 0 ==> final(self).spec_pt() == old(self).spec_pt()
                && final(self).spec_lc() == old(self).spec_lc(),
            r is Ok ==> (final(self).spec_pt(), final(self).spec_lc()) == hlc_observe_step(
                old(self).spec_pt(), old(self).spec_lc(), now as int, remote_pt as int,
                remote_lc as int, pow10(old(self).spec_w()) - 1,
                old(self).spec_unit().spec_tick_cap(),
            ),
    {
        if remote_pt < 0 || remote_lc < 0 {
            return Err(WidError::InvalidRemoteClock);
        }
        proof {
            crate::text::lemma_pow10_18();
            crate::text::lemma_pow10_monotone(self.w as nat, 18);
            crate::text::lemma_pow10_monotone(0, self.w as nat);
            assert(pow10(0) == 1);
        }
        let cap = self.time_unit.tick_cap();
        let rc = if remote_pt > cap { cap } else { remote_pt };
        let nc = if now > cap { cap } else { now };
        let m1 = if nc > self.pt { nc } else { self.pt };
        let new_pt = if rc > m1 { rc } else { m1 };
        let lc1: i64 = if new_pt == self.pt && new_pt == rc {
            (if self.lc > remote_lc { self.lc } else { remote_lc }) + 1
        } else if new_pt == self.pt {
            self.lc + 1
        } else if new_pt == rc {
            remote_lc + 1
        } else {
            0
        };
        if lc1 <= self.max_lc {
            self.pt = new_pt;
            self.lc = lc1;
        } else if new_pt < cap {
            self.pt = new_pt + 1;
            self.lc = 0;
        } else {
            self.pt = cap;
            self.lc = self.max_lc;
        }
        Ok(())
    }

    /// Merges a remote clock sample using the wall clock; fails exactly when
    /// a remote value is negative.
    pub fn observe(&mut self, remote_pt: i64, remote_lc: i64) -> (r: Result<(), WidError>)
        requires
            old(self).wf(),
            remote_lc < i64::MAX,
        ensures
            final(self).wf(),
            final(self).spec_w() == old(self).spec_w(),
            final(self).spec_z() == old(self).spec_z(),
            final(self).spec_unit() == old(self).spec_unit(),
            final(self).spec_node() == old(self).spec_node(),
            remote_pt < 0 || remote_lc < 0 <==> (r matches Err(e) && e is InvalidRemoteClock),
            r is Ok <==> remote_pt >= 0 && remote_lc >= 0,
            remote_pt < 0 || remote_lc < 0 ==> final(self).spec_pt() == old(self).spec_pt()
                && final(self).spec_lc() == old(self).spec_lc(),
            r is Ok ==> exists|now: int| 0 <= now && (final(self).spec_pt(), final(self).spec_lc())
                == #[trigger] hlc_observe_step(
                    old(self).spec_pt(), old(self).spec_lc(), now, remote_pt as int,
                    remote_lc as int, pow10(old(self).spec_w()) - 1,
                    old(self).spec_unit().spec_tick_cap(),
                ),
    {
        let now = crate::sys::wall_clock_tick(self.time_unit);
        let r = self.observe_at(now, remote_pt, remote_lc);
        proof {
            if remote_pt >= 0 && remote_lc >= 0 {
                assert(0 <= now as int && (final(self).spec_pt(), final(self).spec_lc())
                    == hlc_observe_step(
                        old(self).spec_pt(), old(self).spec_lc(), now as int, remote_pt as int,
                        remote_lc as int, pow10(old(self).spec_w()) - 1,
                        old(self).spec_unit().spec_tick_cap(),
                    ));
            }
        }
        r
    }

    /// Advances the clock by one `next` step on the caller-supplied clock
    /// reading `now` and renders the identifier of the new state.
    pub fn next_hlc_wid_at(&mut self, now: i64) -> (r: String)
        requires
            old(self).wf(),
            now >= 0,
        ensures
            final(self).wf(),
            final(self).spec_w() == old(self).spec_w(),
            final(self).spec_z() == old(self).spec_z(),
            final(self).spec_unit() == old(self).spec_unit(),
            final(self).spec_node() == old(self).spec_node(),
            (final(self).spec_pt(), final(self).spec_lc()) == hlc_next_step(
                old(self).spec_pt(), old(self).spec_lc(), now as int,
                pow10(old(self).spec_w()) - 1, old(self).spec_unit().spec_tick_cap(),
            ),
            old(self).spec_pt() < old(self).spec_unit().spec_tick_cap()
                || old(self).spec_lc() < pow10(old(self).spec_w()) - 1
                ==> state_lt(old(self).spec_pt(), old(self).spec_lc(),
                    final(self).spec_pt(), final(self).spec_lc()),
            exists|p: Seq<char>| #[trigger] pad_ok(p, final(self).spec_z()) && r@
                == hlc_core_str(
                final(self).spec_pt(), final(self).spec_lc(), final(self).spec_w(),
                final(self).spec_unit(), final(self).spec_node(),
            ) + p,
    {
        proof {
            crate::text::lemma_pow10_18();
            crate::text::lemma_pow10_monotone(self.w as nat, 18);
            crate::text::lemma_pow10_monotone(0, self.w as nat);
            assert(pow10(0) == 1);
            lemma_hlc_next_step(
                self.pt as int, self.lc as int, now as int, self.max_lc as int,
                self.time_unit.spec_tick_cap(),
            );
        }
        let cap = self.time_unit.tick_cap();
        let nc = if now > cap { cap } else { now };
        if nc > self.pt {
            self.pt = nc;
            self.lc = 0;
        } else if self.lc + 1 <= self.max_lc {
            self.lc = self.lc + 1;
        } else if self.pt < cap {
            self.pt = self.pt + 1;
            self.lc = 0;
        } else {
            self.lc = self.max_lc;
        }
        proof {
            assert((self.pt as int, self.lc as int) == hlc_next_step(
                old(self).spec_pt(), old(self).spec_lc(), now as int,
                pow10(old(self).spec_w()) - 1, old(self).spec_unit().spec_tick_cap(),
            ));
        }
        let pt = self.pt;
        let lc = self.lc;
        let mut out = self.ts_for_tick(pt);
        proof {
            reveal_strlit(".");
            reveal_strlit("Z");
            reveal_strlit("-");
        }
        out.append(".");
        out.append(render_num(lc as u64, self.w).as_str());
        out.append("Z");
        out.append("-");
        out.append(self.node.as_str());
        proof {
            assert(out@ =~= hlc_core_str(
                pt as int, lc as int, self.w as nat, self.time_unit, self.node@,
            ));
        }
        let pad = crate::wid::render_pad(self.z);
        out.append(pad.as_str());
        proof {
            assert(pad_ok(pad@, self.z as int) && out@ == hlc_core_str(
                self.pt as int, self.lc as int, self.w as nat, self.time_unit, self.node@,
            ) + pad@);
        }
        out
    }

    /// Generates the next identifier from the wall clock.
    pub fn next_hlc_wid(&mut self) -> (r: String)
        requires
            old(self).wf(),
        ensures
            final(self).wf(),
            final(self).spec_w() == old(self).spec_w(),
            final(self).spec_z() == old(self).spec_z(),
            final(self).spec_unit() == old(self).spec_unit(),
            final(self).spec_node() == old(self).spec_node(),
            exists|now: int| 0 <= now && (final(self).spec_pt(), final(self).spec_lc())
                == #[trigger] hlc_next_step(old(self).spec_pt(), old(self).spec_lc(), now,
                    pow10(old(self).spec_w()) - 1, old(self).spec_unit().spec_tick_cap()),
            old(self).spec_pt() < old(self).spec_unit().spec_tick_cap()
                || old(self).spec_lc() < pow10(old(self).spec_w()) - 1
                ==> state_lt(old(self).spec_pt(), old(self).spec_lc(),
                    final(self).spec_pt(), final(self).spec_lc()),
            exists|p: Seq<char>| #[trigger] pad_ok(p, final(self).spec_z()) && r@
                == hlc_core_str(
                final(self).spec_pt(), final(self).spec_lc(), final(self).spec_w(),
                final(self).spec_unit(), final(self).spec_node(),
            ) + p,
    {
        let now = crate::sys::wall_clock_tick(self.time_unit);
        let r = self.next_hlc_wid_at(now);
        proof {
            assert(0 <= now as int && (final(self).spec_pt(), final(self).spec_lc())
                == hlc_next_step(old(self).spec_pt(), old(self).spec_lc(), now as int,
                    pow10(old(self).spec_w()) - 1, old(self).spec_unit().spec_tick_cap()));
        }
        r
    }

    /// Generates `n` identifiers; while the clock stays below the end of its
    /// representable range they are strictly increasing.
    pub fn next_n(&mut self, n: usize) -> (r: Vec<String>)
        requires
            old(self).wf(),
        ensures
            final(self).wf(),
            final(self).spec_w() == old(self).spec_w(),
            final(self).spec_z() == old(self).spec_z(),
            final(self).spec_unit() == old(self).spec_unit(),
            final(self).spec_node() == old(self).spec_node(),
            r.len() == n,
            exists|sts: Seq<(int, int)>| #[trigger] hlc_batch(
                sts, r@, old(self).spec_w(), old(self).spec_z(), old(self).spec_unit(),
                old(self).spec_node(),
            ) && sts[0] == (old(self).spec_pt(), old(self).spec_lc())
                && sts[sts.len() - 1] == (final(self).spec_pt(), final(self).spec_lc()),
            forall|i: int| #![trigger r@[i]] 0 <= i < n as int
                ==> exists|t: int, c: int, p: Seq<char>|
                    #![trigger pad_ok(p, old(self).spec_z()),
                        hlc_core_str(t, c, old(self).spec_w(), old(self).spec_unit(),
                            old(self).spec_node())]
                    0 <= t <= old(self).spec_unit().spec_tick_cap()
                        && 0 <= c < pow10(old(self).spec_w())
                        && pad_ok(p, old(self).spec_z())
                        && r@[i]@ == hlc_core_str(
                            t, c, old(self).spec_w(), old(self).spec_unit(),
                            old(self).spec_node(),
                        ) + p,
            !(final(self).spec_pt() == final(self).spec_unit().spec_tick_cap()
                && final(self).spec_lc() == pow10(final(self).spec_w()) - 1)
                ==> forall|i: int| 0 <= i < n as int - 1
                    ==> lex_lt(#[trigger] r@[i]@, r@[i + 1]@),
    {
        let ghost w0 = self.spec_w();
        let ghost z0 = self.spec_z();
        let ghost u0 = self.spec_unit();
        let ghost nd0 = self.spec_node();
        let ghost t0g = self.spec_pt();
        let ghost c0g = self.spec_lc();
        let ghost mut sts: Seq<(int, int)> = seq![(t0g, c0g)];
        let mut out: Vec<String> = Vec::new();
        let mut i: usize = 0;
        while i < n
            invariant
                self.wf(),
                self.spec_w() == w0,
                self.spec_z() == z0,
                self.spec_unit() == u0,
                self.spec_node() == nd0,
                out.len() == i,
                i <= n,
                sts.len() == i + 1,
                sts[0] == (t0g, c0g),
                sts[i as int] == (self.spec_pt(), self.spec_lc()),
                hlc_batch(sts, out@, w0, z0, u0, nd0),
                i > 0 ==> exists|p: Seq<char>| #[trigger] pad_ok(p, z0) && out@[i as int - 1]@
                    == hlc_core_str(self.spec_pt(), self.spec_lc(), w0, u0, nd0) + p,
                forall|j: int| #![trigger out@[j]] 0 <= j < i as int
                    ==> exists|t: int, c: int, p: Seq<char>|
                        #![trigger pad_ok(p, z0), hlc_core_str(t, c, w0, u0, nd0)]
                        0 <= t <= u0.spec_tick_cap() && 0 <= c < pow10(w0) && pad_ok(p, z0)
                            && out@[j]@ == hlc_core_str(t, c, w0, u0, nd0) + p,
                !(self.spec_pt() == u0.spec_tick_cap() && self.spec_lc() == pow10(w0) - 1)
                    ==> forall|j: int| 0 <= j < i as int - 1
                        ==> lex_lt(#[trigger] out@[j]@, out@[j + 1]@),
            decreases n - i,
        {
            let ghost pre_pt = self.spec_pt();
            let ghost pre_lc = self.spec_lc();
            proof {
                self.lemma_wf_bounds();
            }
            let s = self.next_hlc_wid();
            proof {
                self.lemma_wf_bounds();
                let p_el = choose|p: Seq<char>| #[trigger] pad_ok(p, z0) && s@
                    == hlc_core_str(self.spec_pt(), self.spec_lc(), w0, u0, nd0) + p;
                assert(0 <= self.spec_pt() <= u0.spec_tick_cap()
                    && 0 <= self.spec_lc() < pow10(w0) && pad_ok(p_el, z0)
                    && s@ == hlc_core_str(self.spec_pt(), self.spec_lc(), w0, u0, nd0) + p_el);
            }
            proof {
                let now = choose|now: int| 0 <= now && (self.spec_pt(), self.spec_lc())
                    == #[trigger] hlc_next_step(pre_pt, pre_lc, now, pow10(w0) - 1,
                        u0.spec_tick_cap());
                if pre_pt == u0.spec_tick_cap() && pre_lc == pow10(w0) - 1 {
                    lemma_hlc_next_step(pre_pt, pre_lc, now, pow10(w0) - 1, u0.spec_tick_cap());
                }
                if !(self.spec_pt() == u0.spec_tick_cap() && self.spec_lc() == pow10(w0) - 1)
                    && i > 0 {
                    let p_prev = choose|p: Seq<char>| #[trigger] pad_ok(p, z0)
                        && out@[i as int - 1]@ == hlc_core_str(pre_pt, pre_lc, w0, u0, nd0) + p;
                    let p_new = choose|p: Seq<char>| #[trigger] pad_ok(p, z0) && s@
                        == hlc_core_str(self.spec_pt(), self.spec_lc(), w0, u0, nd0) + p;
                    lemma_hlc_str_monotone(
                        pre_pt, pre_lc, self.spec_pt(), self.spec_lc(), w0, z0, u0, nd0,
                        p_prev, p_new,
                    );
                }
            }
            let ghost sts_old = sts;
            let ghost out_old = out@;
            proof {
                sts = sts.push((self.spec_pt(), self.spec_lc()));
            }
            out.push(s);
            proof {
                let now2 = choose|now: int| 0 <= now && (self.spec_pt(), self.spec_lc())
                    == #[trigger] hlc_next_step(pre_pt, pre_lc, now, pow10(w0) - 1,
                        u0.spec_tick_cap());
                let p2 = choose|p: Seq<char>| #[trigger] pad_ok(p, z0) && s@
                    == hlc_core_str(self.spec_pt(), self.spec_lc(), w0, u0, nd0) + p;
                assert(sts_old[i as int] == (pre_pt, pre_lc));
                lemma_hlc_batch_push(
                    sts_old, out_old, w0, z0, u0, nd0,
                    (self.spec_pt(), self.spec_lc()), s, now2, p2,
                );
                assert(sts =~= sts_old.push((self.spec_pt(), self.spec_lc())));
                assert(out@ =~= out_old.push(s));
            }
            i = i + 1;
        }
        proof {
            assert(hlc_batch(sts, out@, w0, z0, u0, nd0) && sts[0] == (t0g, c0g)
                && sts[sts.len() - 1] == (self.spec_pt(), self.spec_lc()));
        }
        out
    }

    /// The current clock state.
    pub fn state(&self) -> (r: HLCState)
        ensures
            r.pt == self.spec_pt(),
            r.lc == self.spec_lc(),
    {
        HLCState { pt: self.pt, lc: self.lc }
    }

    /// Restores a previously persisted state; fails exactly when a value is
    /// negative, leaving the state unchanged.
    pub fn restore_state(&mut self, pt: i64, lc: i64) -> (r: Result<(), WidError>)
        requires
            old(self).wf(),
            pt <= old(self).spec_unit().spec_tick_cap(),
            lc < pow10(old(self).spec_w()),
        ensures
            final(self).wf(),
            final(self).spec_w() == old(self).spec_w(),
            final(self).spec_z() == old(self).spec_z(),
            final(self).spec_unit() == old(self).spec_unit(),
            final(self).spec_node() == old(self).spec_node(),
            pt < 0 || lc < 0 <==> (r matches Err(e) && e is InvalidRemoteClock),
            r is Ok <==> pt >= 0 && lc >= 0,
            pt < 0 || lc < 0 ==> final(self).spec_pt() == old(self).spec_pt()
                && final(self).spec_lc() == old(self).spec_lc(),
            r is Ok ==> final(self).spec_pt() == pt && final(self).spec_lc() == lc,
    {
        if pt < 0 || lc < 0 {
            return Err(WidError::InvalidRemoteClock);
        }
        self.pt = pt;
        self.lc = lc;
        Ok(())
    }

    /// The generator's time unit.
    pub fn time_unit(&self) -> (r: TimeUnit)
        ensures
            r == self.spec_unit(),
    {
        self.time_unit
    }
}

} // verus!
