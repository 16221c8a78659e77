//! Plain WID identifiers: grammar, parsing, validation and the generator.
//!
//! Format: `YYYYMMDD` `T` `HHMMSS[mmm]` `.` `seq` (exactly `w` digits) `Z`,
//! optionally followed by `-` and `z` lowercase hexadecimal padding digits.

use vstd::prelude::*;

use crate::text::{
    all_digits, all_lower_hex, check_digits, check_lower_hex, digit_str, digits_val, lex_lt,
    num_str, pow10, render_num, scan_field_u32,
};
use crate::tstamp::{
    lemma_ts_str_wf, scan_timestamp, spec_ts_fields, spec_ts_fields_ok, ts_str, TimeUnit, UtcTime,
};

verus! {

/// Errors of identifier construction, parsing and validation.
#[derive(Debug)]
pub enum WidError {
    /// The digit width `w` must be positive.
    InvalidW,
    /// The padding width `z` must be non-negative; unreachable with an
    /// unsigned width, kept for the error surface.
    InvalidZ,
    /// Plain identifiers carry no scope.
    InvalidScope,
    /// A node name must be non-empty and alphanumeric or underscore.
    InvalidNode,
    /// Remote clock values must be non-negative.
    InvalidRemoteClock,
    /// The string does not match the identifier grammar; carries the input.
    InvalidFormat(String),
    /// The grammar matched but the fields form no legal calendar date-time.
    InvalidTimestamp,
}

/// Length of an identifier without padding: date (8), `T`, time block,
/// `.`, `w` counter digits, `Z`.
pub open spec fn wid_core_len(w: int, unit: TimeUnit) -> int {
    11 + unit.spec_time_digits() + w
}

/// The plain identifier grammar for widths `w` and `z`: fixed-width digit
/// blocks, the three literal separators, and an optional padding block.
pub open spec fn wid_grammar_ok(s: Seq<char>, w: int, z: int, unit: TimeUnit) -> bool {
    let td = unit.spec_time_digits();
    let cl = wid_core_len(w, unit);
    &&& (s.len() == cl || (z > 0 && s.len() == cl + 1 + z))
    &&& all_digits(s.subrange(0, 8))
    &&& s[8] == 'T'
    &&& all_digits(s.subrange(9, 9 + td))
    &&& s[9 + td] == '.'
    &&& all_digits(s.subrange(10 + td, 10 + td + w))
    &&& s[10 + td + w] == 'Z'
    &&& (s.len() > cl ==> s[cl] == '-' && all_lower_hex(s.subrange(cl + 1, s.len() as int)))
}

/// The numeric value of the sequence block.
pub open spec fn wid_seq_val(s: Seq<char>, w: int, unit: TimeUnit) -> int {
    digits_val(s.subrange(10 + unit.spec_time_digits(), 10 + unit.spec_time_digits() + w))
}

/// A string is a valid identifier when the grammar matches, the timestamp
/// fields form a legal date-time, and the sequence value fits in a `u32`.
pub open spec fn wid_ok(s: Seq<char>, w: int, z: int, unit: TimeUnit) -> bool {
    &&& w > 0
    &&& wid_grammar_ok(s, w, z, unit)
    &&& spec_ts_fields_ok(s, unit)
    &&& wid_seq_val(s, w, unit) <= u32::MAX
}

/// Components of a successfully parsed plain identifier.
#[derive(Debug, Clone, PartialEq)]
pub struct ParsedWid {
    /// The input string as parsed.
    pub raw: String,
    /// The decoded UTC timestamp.
    pub timestamp: UtcTime,
    /// The decoded sequence value.
    pub sequence: u32,
    /// The padding block without its leading `-`, if one was present.
    pub padding: Option<String>,
}

impl ParsedWid {
    /// What parsing promises about each component.
    pub open spec fn matches(self, s: Seq<char>, w: int, z: int, unit: TimeUnit) -> bool {
        &&& self.raw@ == s
        &&& self.timestamp == spec_ts_fields(s, unit)
        &&& self.sequence == wid_seq_val(s, w, unit)
        &&& if z > 0 && s.len() > wid_core_len(w, unit) {
            self.padding matches Some(p) && p@ == s.subrange(wid_core_len(w, unit) + 1, s.len() as int)
        } else {
            self.padding is None
        }
    }

    /// Unix timestamp of the identifier in seconds.
    pub fn timestamp_sec(&self) -> (r: i64)
        requires
            self.timestamp.wf(),
        ensures
            r == self.timestamp.spec_timestamp(),
    {
        self.timestamp.timestamp()
    }
}

/// Checks the structural part of the grammar.
fn check_wid_shape(s: &str, w: usize, z: usize, unit: TimeUnit) -> (r: bool)
    requires
        w >= 1,
    ensures
        r == wid_grammar_ok(s@, w as int, z as int, unit),
{
    let n = s.unicode_len();
    let td = unit.time_digits();
    let core_wide: u128 = 11 + td as u128 + w as u128;
    let with_pad = z > 0 && n as u128 == core_wide + 1 + z as u128;
    if !(n as u128 == core_wide || with_pad) {
        return false;
    }
    let cl: usize = 11 + td + w;
    if !check_digits(s, 0, 8) {
        return false;
    }
    if s.get_char(8) != 'T' {
        return false;
    }
    if !check_digits(s, 9, 9 + td) {
        return false;
    }
    if s.get_char(9 + td) != '.' {
        return false;
    }
    if !check_digits(s, 10 + td, 10 + td + w) {
        return false;
    }
    if s.get_char(10 + td + w) != 'Z' {
        return false;
    }
    if n > cl {
        if s.get_char(cl) != '-' {
            return false;
        }
        if !check_lower_hex(s, cl + 1, n) {
            return false;
        }
    }
    true
}

/// Parses a plain identifier for a specific time unit.
///
/// Fails with `InvalidW` when `w` is zero, `InvalidFormat` when the grammar
/// does not match or the sequence overflows a `u32`, and `InvalidTimestamp`
/// when the grammar matches but the calendar does not.
pub fn parse_wid_with_unit(wid: &str, w: usize, z: usize, time_unit: TimeUnit) -> (r: Result<
    ParsedWid,
    WidError,
>)
    ensures
        r is Ok <==> wid_ok(wid@, w as int, z as int, time_unit),
        r matches Ok(p) ==> p.matches(wid@, w as int, z as int, time_unit)
            && p.timestamp.wf(),
        w == 0 <==> (r matches Err(e) && e is InvalidW),
        w > 0 && !wid_grammar_ok(wid@, w as int, z as int, time_unit)
            ==> (r matches Err(e) && e matches WidError::InvalidFormat(f) && f@ == wid@),
        w > 0 && wid_grammar_ok(wid@, w as int, z as int, time_unit)
            && !spec_ts_fields_ok(wid@, time_unit)
            ==> (r matches Err(e) && e is InvalidTimestamp),
        w > 0 && wid_grammar_ok(wid@, w as int, z as int, time_unit)
            && spec_ts_fields_ok(wid@, time_unit)
            && wid_seq_val(wid@, w as int, time_unit) > u32::MAX
            ==> (r matches Err(e) && e matches WidError::InvalidFormat(f) && f@ == wid@),
{
    if w == 0 {
        return Err(WidError::InvalidW);
    }
    if !check_wid_shape(wid, w, z, time_unit) {
        return Err(WidError::InvalidFormat(wid.to_owned()));
    }
    let td = time_unit.time_digits();
    let n = wid.unicode_len();
    let cl: usize = 11 + td + w;
    let timestamp = match scan_timestamp(wid, time_unit) {
        Some(t) => t,
        None => {
            return Err(WidError::InvalidTimestamp);
        },
    };
    let sequence = match scan_field_u32(wid, 10 + td, 10 + td + w) {
        Some(v) => v,
        None => {
            return Err(WidError::InvalidFormat(wid.to_owned()));
        },
    };
    let padding = if z > 0 && n > cl {
        Some(wid.substring_char(cl + 1, n).to_owned())
    } else {
        None
    };
    Ok(ParsedWid { raw: wid.to_owned(), timestamp, sequence, padding })
}

/// Parses a plain identifier in `sec` mode.
pub fn parse_wid(wid: &str, w: usize, z: usize) -> (r: Result<ParsedWid, WidError>)
    ensures
        r is Ok <==> wid_ok(wid@, w as int, z as int, TimeUnit::Sec),
        r matches Ok(p) ==> p.matches(wid@, w as int, z as int, TimeUnit::Sec)
            && p.timestamp.wf(),
        w == 0 <==> (r matches Err(e) && e is InvalidW),
{
    parse_wid_with_unit(wid, w, z, TimeUnit::Sec)
}

/// Validates a plain identifier for a specific time unit.
pub fn validate_wid_with_unit(wid: &str, w: usize, z: usize, time_unit: TimeUnit) -> (r: bool)
    ensures
        r == wid_ok(wid@, w as int, z as int, time_unit),
{
    parse_wid_with_unit(wid, w, z, time_unit).is_ok()
}

/// Validates a plain identifier in `sec` mode.
pub fn validate_wid(wid: &str, w: usize, z: usize) -> (r: bool)
    ensures
        r == wid_ok(wid@, w as int, z as int, TimeUnit::Sec),
{
    validate_wid_with_unit(wid, w, z, TimeUnit::Sec)
}

/// One step of the tick/sequence state machine on a clock reading `now`.
///
/// The tick never goes backward (a clock regression is absorbed by `max`),
/// the sequence increments within a tick and resets when the tick moves, and
/// exhausting the sequence bumps the tick by one unit.  At the very end of
/// the representable range (`cap` with a full sequence) the state saturates
/// instead of leaving the four-digit-year era.
pub open spec fn plain_step(tick0: int, seq0: int, now: int, max_seq: int, cap: int) -> (int, int) {
    let nc = if now > cap { cap } else { now };
    let t = if nc > tick0 { nc } else { tick0 };
    let s = if t == tick0 { seq0 + 1 } else { 0 };
    if s <= max_seq {
        (t, s)
    } else if t < cap {
        (t + 1, 0)
    } else {
        (cap, max_seq)
    }
}

/// Strict lexicographic order on (tick, sequence) states.
pub open spec fn state_lt(t1: int, s1: int, t2: int, s2: int) -> bool {
    t1 < t2 || (t1 == t2 && s1 < s2)
}

/// Law: progress and rollover of the plain generator.
///
/// Every step stays within bounds and strictly increases the state unless it
/// was already saturated; and with the wall clock pinned (`now` not beyond
/// the stored tick) the sequence increments until it would pass `max_seq`,
/// at which point the tick advances by exactly one unit and the sequence
/// resets to zero — so the tick advances exactly once per `max_seq + 1`
/// identifiers drawn within one wall-clock tick, and the emitted sequence
/// value never exceeds `max_seq`.
pub proof fn lemma_plain_step(tick0: int, seq0: int, now: int, max_seq: int, cap: int)
    requires
        0 <= tick0 <= cap,
        -1 <= seq0 <= max_seq,
        0 <= max_seq,
        0 <= now,
    ensures
        0 <= plain_step(tick0, seq0, now, max_seq, cap).0 <= cap,
        0 <= plain_step(tick0, seq0, now, max_seq, cap).1 <= max_seq,
        tick0 < cap || seq0 < max_seq ==> state_lt(
            tick0, seq0,
            plain_step(tick0, seq0, now, max_seq, cap).0,
            plain_step(tick0, seq0, now, max_seq, cap).1,
        ),
        now <= tick0 && seq0 < max_seq ==> plain_step(tick0, seq0, now, max_seq, cap)
            == (tick0, seq0 + 1),
        now <= tick0 && seq0 == max_seq && tick0 < cap ==> plain_step(tick0, seq0, now, max_seq, cap)
            == (tick0 + 1, 0int),
        tick0 == cap && seq0 == max_seq ==> plain_step(tick0, seq0, now, max_seq, cap)
            == (tick0, seq0),
{
}

/// The identifier text of a state, without the random padding block.
pub open spec fn wid_core_str(tick: int, seqv: int, w: nat, unit: TimeUnit) -> Seq<char> {
    ts_str(tick, unit) + seq!['.'] + num_str(seqv as nat, w) + seq!['Z']
}

/// Shape of a generated padding block: empty for `z == 0`, else `-` followed
/// by exactly `z` lowercase hexadecimal digits.
pub open spec fn pad_ok(p: Seq<char>, z: int) -> bool {
    if z == 0 {
        p.len() == 0
    } else {
        p.len() == z + 1 && p[0] == '-' && all_lower_hex(p.subrange(1, p.len() as int))
    }
}

/// One link of a batch's state chain: the j-th step follows from its
/// predecessor by `plain_step` under some clock reading.
pub open spec fn wid_batch_step(sts: Seq<(int, int)>, j: int, w: nat, unit: TimeUnit) -> bool {
    exists|now: int| 0 <= now && sts[j + 1] == #[trigger] plain_step(
        sts[j].0, sts[j].1, now, pow10(w) - 1, unit.spec_tick_cap(),
    )
}

/// One element of a batch: the j-th identifier renders the state after the
/// j-th step, with a well-formed padding block.
pub open spec fn wid_batch_elem(
    sts: Seq<(int, int)>, out: Seq<String>, j: int, w: nat, z: int, unit: TimeUnit,
) -> bool {
    exists|p: Seq<char>| #![trigger pad_ok(p, z)] pad_ok(p, z) && out[j]@ == wid_core_str(
        sts[j + 1].0, sts[j + 1].1, w, unit,
    ) + p
}

/// A batch drawn from the generator: a chain of states each one
/// `plain_step` apart under some clock reading, with element `j` the
/// rendered identifier of the state after the j-th step.  `sts[0]` is the
/// state before the batch.
pub open spec fn wid_batch(
    sts: Seq<(int, int)>, out: Seq<String>, w: nat, z: int, unit: TimeUnit,
) -> bool {
    &&& sts.len() == out.len() + 1
    &&& forall|j: int| 0 <= j < out.len() ==> #[trigger] wid_batch_step(sts, j, w, unit)
    &&& forall|j: int| 0 <= j < out.len() ==> #[trigger] wid_batch_elem(sts, out, j, w, z, unit)
}

/// A batch extends by one step and its rendered identifier.
pub proof fn lemma_wid_batch_push(
    sts: Seq<(int, int)>, out: Seq<String>, w: nat, z: int, unit: TimeUnit,
    st2: (int, int), el: String, now: int, p: Seq<char>,
)
    requires
        wid_batch(sts, out, w, z, unit),
        0 <= now,
        st2 == plain_step(
            sts[sts.len() - 1].0, sts[sts.len() - 1].1, now, pow10(w) - 1,
            unit.spec_tick_cap(),
        ),
        pad_ok(p, z),
        el@ == wid_core_str(st2.0, st2.1, w, unit) + p,
    ensures
        wid_batch(sts.push(st2), out.push(el), w, z, unit),
{
    let sts2 = sts.push(st2);
    let out2 = out.push(el);
    assert(sts2.len() == out2.len() + 1);
    assert forall|j: int| 0 <= j < out2.len() implies #[trigger] wid_batch_step(
        sts2, j, w, unit,
    ) by {
        if j < out.len() {
            assert(wid_batch_step(sts, j, w, unit));
            let nw = choose|now3: int| 0 <= now3 && sts[j + 1] == #[trigger] plain_step(
                sts[j].0, sts[j].1, now3, pow10(w) - 1, unit.spec_tick_cap(),
            );
            assert(sts2[j] == sts[j] && sts2[j + 1] == sts[j + 1]);
            assert(0 <= nw && sts2[j + 1] == plain_step(
                sts2[j].0, sts2[j].1, nw, pow10(w) - 1, unit.spec_tick_cap(),
            ));
        } else {
            assert(sts2[j] == sts[sts.len() - 1] && sts2[j + 1] == st2);
            assert(0 <= now && sts2[j + 1] == plain_step(
                sts2[j].0, sts2[j].1, now, pow10(w) - 1, unit.spec_tick_cap(),
            ));
        }
    }
    assert forall|j: int| 0 <= j < out2.len() implies #[trigger] wid_batch_elem(
        sts2, out2, j, w, z, unit,
    ) by {
        if j < out.len() {
            assert(wid_batch_elem(sts, out, j, w, z, unit));
            let q = choose|q: Seq<char>| #[trigger] pad_ok(q, z) && out[j]@ == wid_core_str(
                sts[j + 1].0, sts[j + 1].1, w, unit,
            ) + q;
            assert(out2[j] == out[j] && sts2[j + 1] == sts[j + 1]);
            assert(pad_ok(q, z) && out2[j]@ == wid_core_str(
                sts2[j + 1].0, sts2[j + 1].1, w, unit,
            ) + q);
        } else {
            assert(out2[j] == el && sts2[j + 1] == st2);
            assert(pad_ok(p, z) && out2[j]@ == wid_core_str(
                sts2[j + 1].0, sts2[j + 1].1, w, unit,
            ) + p);
        }
    }
}

/// Law: monotonicity of rendered identifiers.
///
/// Identifiers rendered from strictly increasing (tick, sequence) states
/// compare strictly increasing under lexicographic string order, whatever
/// random padding block each one carries.
pub proof fn lemma_wid_str_monotone(
    t1: int, s1: int, t2: int, s2: int, w: nat, z: int, unit: TimeUnit,
    p1: Seq<char>, p2: Seq<char>,
)
    requires
        0 <= t1 <= unit.spec_tick_cap(),
        0 <= t2 <= unit.spec_tick_cap(),
        0 <= s1 < pow10(w),
        0 <= s2 < pow10(w),
        state_lt(t1, s1, t2, s2),
        pad_ok(p1, z),
        pad_ok(p2, z),
    ensures
        lex_lt(wid_core_str(t1, s1, w, unit) + p1, wid_core_str(t2, s2, w, unit) + p2),
{
    lemma_ts_str_wf(t1, unit);
    lemma_ts_str_wf(t2, unit);
    crate::text::lemma_num_str_len(s1 as nat, w);
    crate::text::lemma_num_str_len(s2 as nat, w);
    let a1 = ts_str(t1, unit);
    let a2 = ts_str(t2, unit);
    let b1 = seq!['.'] + num_str(s1 as nat, w);
    let b2 = seq!['.'] + num_str(s2 as nat, w);
    let c1 = seq!['Z'] + p1;
    let c2 = seq!['Z'] + p2;
    if t1 < t2 {
        crate::tstamp::lemma_ts_str_monotone(t1, t2, unit);
    } else {
        crate::text::lemma_num_str_monotone(s1 as nat, s2 as nat, w);
        crate::text::lemma_lex_lt_common_prefix(
            seq!['.'], num_str(s1 as nat, w), num_str(s2 as nat, w),
        );
    }
    crate::tstamp::lemma_lex_cat3(a1, b1, c1, a2, b2, c2);
    assert(a1 + b1 + c1 =~= wid_core_str(t1, s1, w, unit) + p1);
    assert(a2 + b2 + c2 =~= wid_core_str(t2, s2, w, unit) + p2);
}

/// Law: round trip of generation and parsing.
///
/// Any identifier rendered from a state within the codec's range — with the
/// sequence inside its `w`-digit field and inside `u32` — validates, and
/// parsing it recovers the same sequence value and a legal timestamp whose
/// epoch second is the tick's whole-second part.
pub proof fn lemma_wid_round_trip(tick: int, seqv: int, w: nat, z: int, unit: TimeUnit, p: Seq<char>)
    requires
        1 <= w,
        0 <= tick <= unit.spec_tick_cap(),
        0 <= seqv < pow10(w),
        seqv <= u32::MAX,
        z >= 0,
        pad_ok(p, z),
    ensures
        ({
            let s = wid_core_str(tick, seqv, w, unit) + p;
            &&& wid_ok(s, w as int, z, unit)
            &&& wid_seq_val(s, w as int, unit) == seqv
            &&& spec_ts_fields(s, unit) == spec_ts_fields(ts_str(tick, unit), unit)
            &&& spec_ts_fields(s, unit).spec_timestamp() == crate::tstamp::tick_secs(tick, unit)
        }),
{
    let ts = ts_str(tick, unit);
    let core = wid_core_str(tick, seqv, w, unit);
    let s = core + p;
    let td = unit.spec_time_digits();
    let cl = wid_core_len(w as int, unit);
    lemma_ts_str_wf(tick, unit);
    crate::tstamp::lemma_ts_str_decode(tick, unit);
    crate::text::lemma_num_str_len(seqv as nat, w);
    crate::text::lemma_num_str_val(seqv as nat, w);
    assert(ts.len() == 9 + td);
    assert(core.len() == cl);
    // the grammar blocks of `s` are the blocks of the timestamp, the
    // sequence field and the padding
    assert(s.subrange(0, 8) =~= ts.subrange(0, 8));
    assert(s[8] == ts[8]);
    assert(s.subrange(9, 9 + td) =~= ts.subrange(9, 9 + td));
    assert(s[9 + td] == '.');
    assert(s.subrange(10 + td, 10 + td + w) =~= num_str(seqv as nat, w));
    assert(s[10 + td + w] == 'Z');
    if p.len() > 0 {
        assert(s.len() == cl + 1 + z);
        assert(s[cl] == p[0]);
        assert(s.subrange(cl + 1, s.len() as int) =~= p.subrange(1, p.len() as int));
    } else {
        assert(s.len() == cl);
    }
    assert(wid_grammar_ok(s, w as int, z, unit));
    // the timestamp fields of `s` are those of the timestamp block
    assert(s.subrange(0, 4) =~= ts.subrange(0, 4));
    assert(s.subrange(4, 6) =~= ts.subrange(4, 6));
    assert(s.subrange(6, 8) =~= ts.subrange(6, 8));
    assert(s.subrange(9, 11) =~= ts.subrange(9, 11));
    assert(s.subrange(11, 13) =~= ts.subrange(11, 13));
    assert(s.subrange(13, 15) =~= ts.subrange(13, 15));
    if unit is Ms {
        assert(s.subrange(15, 18) =~= ts.subrange(15, 18));
    }
    assert(spec_ts_fields(s, unit) == spec_ts_fields(ts, unit));
}

/// Generator of plain identifiers: a monotonic tick/sequence state machine
/// with collision-resistance padding.
pub struct WidGen {
    w: usize,
    z: usize,
    time_unit: TimeUnit,
    max_seq: i64,
    last_tick: i64,
    last_seq: i64,
    cached_tick: i64,
    cached_ts: String,
}

impl WidGen {
    /// The generator's invariant: widths in range, the counter bound matches
    /// `w`, the state inside the codec's range, and a sound timestamp cache.
    pub closed spec fn wf(self) -> bool {
        &&& 1 <= self.w <= 18
        &&& self.max_seq == pow10(self.w as nat) - 1
        &&& 0 <= self.last_tick <= self.time_unit.spec_tick_cap()
        &&& -1 <= self.last_seq <= self.max_seq
        &&& self.cached_tick >= -1
        &&& (self.cached_tick >= 0 ==> self.cached_tick <= self.time_unit.spec_tick_cap()
            && self.cached_ts@ == ts_str(self.cached_tick as int, self.time_unit))
    }

    /// The digit width of the sequence field.
    pub closed spec fn spec_w(self) -> nat {
        self.w as nat
    }

    /// The width of the random padding block.
    pub closed spec fn spec_z(self) -> int {
        self.z as int
    }

    /// The generator's time unit.
    pub closed spec fn spec_unit(self) -> TimeUnit {
        self.time_unit
    }

    /// The stored tick of the last generation.
    pub closed spec fn spec_tick(self) -> int {
        self.last_tick as int
    }

    /// The stored sequence of the last generation (-1 before the first).
    pub closed spec fn spec_seq(self) -> int {
        self.last_seq as int
    }

    /// What the invariant gives every caller.
    pub proof fn lemma_wf_bounds(self)
        requires
            self.wf(),
        ensures
            1 <= self.spec_w() <= 18,
            0 <= self.spec_tick() <= self.spec_unit().spec_tick_cap(),
            -1 <= self.spec_seq() < pow10(self.spec_w()),
            0 <= self.spec_z(),
    {
        crate::text::lemma_pow10_monotone(0, self.spec_w());
    }

    /// Builds a generator without validation.
    fn make(w: usize, z: usize, time_unit: TimeUnit) -> (r: WidGen)
        requires
            1 <= w <= 18,
        ensures
            r.wf(),
            r.spec_w() == w,
            r.spec_z() == z,
            r.spec_unit() == time_unit,
            r.spec_tick() == 0,
            r.spec_seq() == -1,
    {
        let max_seq = crate::text::pow10_i64(w) - 1;
        proof {
            crate::text::lemma_pow10_monotone(1, w as nat);
        }
        WidGen {
            w,
            z,
            time_unit,
            max_seq,
            last_tick: 0,
            last_seq: -1,
            cached_tick: -1,
            cached_ts: String::new(),
        }
    }

    /// Creates a generator in `sec` mode; rejects `w == 0` and any scope.
    /// The width is capped at 18 digits so that the counter bound `10^w`
    /// fits the generator's 64-bit state.
    pub fn new(w: usize, z: usize, scope: Option<String>) -> (r: Result<WidGen, WidError>)
        requires
            w <= 18,
        ensures
            w == 0 <==> (r matches Err(e) && e is InvalidW),
            w > 0 && scope is Some <==> (r matches Err(e) && e is InvalidScope),
            r matches Ok(g) ==> g.wf() && g.spec_w() == w && g.spec_z() == z
                && g.spec_unit() == TimeUnit::Sec && g.spec_tick() == 0 && g.spec_seq() == -1,
            r is Ok <==> (w > 0 && scope is None),
    {
        Self::new_with_time_unit(w, z, scope, TimeUnit::Sec)
    }

    /// Creates a generator with a chosen time unit; rejects `w == 0` and any
    /// scope.  The width is capped at 18 digits so that the counter bound
    /// `10^w` fits the generator's 64-bit state.
    pub fn new_with_time_unit(w: usize, z: usize, scope: Option<String>, time_unit: TimeUnit) -> (r:
        Result<WidGen, WidError>)
        requires
            w <= 18,
        ensures
            w == 0 <==> (r matches Err(e) && e is InvalidW),
            w > 0 && scope is Some <==> (r matches Err(e) && e is InvalidScope),
            r matches Ok(g) ==> g.wf() && g.spec_w() == w && g.spec_z() == z
                && g.spec_unit() == time_unit && g.spec_tick() == 0 && g.spec_seq() == -1,
            r is Ok <==> (w > 0 && scope is None),
    {
        if w == 0 {
            return Err(WidError::InvalidW);
        }
        if scope.is_some() {
            return Err(WidError::InvalidScope);
        }
        Ok(Self::make(w, z, time_unit))
    }

    /// A generator with the default parameters: `w = 4`, `z = 6`, `sec`.
    pub fn default_params() -> (r: WidGen)
        ensures
            r.wf(),
            r.spec_w() == 4,
            r.spec_z() == 6,
            r.spec_unit() == TimeUnit::Sec,
            r.spec_tick() == 0,
            r.spec_seq() == -1,
    {
        Self::make(4, 6, TimeUnit::Sec)
    }

    /// Renders the timestamp of `tick`, re-rendering only when the tick
    /// changed since the last call.
    fn ts_for_tick(&mut self, tick: i64) -> (r: String)
        requires
            old(self).wf(),
            0 <= tick <= old(self).spec_unit().spec_tick_cap(),
        ensures
            final(self).wf(),
            r@ == ts_str(tick as int, old(self).spec_unit()),
            final(self).spec_w() == old(self).spec_w(),
            final(self).spec_z() == old(self).spec_z(),
            final(self).spec_unit() == old(self).spec_unit(),
            final(self).spec_tick() == old(self).spec_tick(),
            final(self).spec_seq() == old(self).spec_seq(),
    {
        if tick != self.cached_tick {
            self.cached_tick = tick;
            self.cached_ts = crate::tstamp::render_ts(tick, self.time_unit);
        }
        self.cached_ts.clone()
    }

    /// Advances the state by one step on the caller-supplied clock reading
    /// `now` and renders the identifier of the new state.
    pub fn next_wid_at(&mut self, now: i64) -> (r: String)
        requires
            old(self).wf(),
            now >= 0,
        ensures
            final(self).wf(),
            final(self).spec_w() == old(self).spec_w(),
            final(self).spec_z() == old(self).spec_z(),
            final(self).spec_unit() == old(self).spec_unit(),
            (final(self).spec_tick(), final(self).spec_seq()) == plain_step(
                old(self).spec_tick(), old(self).spec_seq(), now as int,
                pow10(old(self).spec_w()) - 1, old(self).spec_unit().spec_tick_cap(),
            ),
            0 <= final(self).spec_seq() < pow10(old(self).spec_w()),
            old(self).spec_tick() < old(self).spec_unit().spec_tick_cap()
                || old(self).spec_seq() < pow10(old(self).spec_w()) - 1
                ==> state_lt(old(self).spec_tick(), old(self).spec_seq(),
                    final(self).spec_tick(), final(self).spec_seq()),
            exists|p: Seq<char>| #[trigger] pad_ok(p, final(self).spec_z()) && r@
                == wid_core_str(
                final(self).spec_tick(), final(self).spec_seq(), final(self).spec_w(),
                final(self).spec_unit(),
            ) + p,
    {
        proof {
            crate::text::lemma_pow10_18();
            crate::text::lemma_pow10_monotone(self.w as nat, 18);
            crate::text::lemma_pow10_monotone(0, self.w as nat);
            assert(pow10(0) == 1);
            lemma_plain_step(
                self.last_tick as int, self.last_seq as int, now as int,
                self.max_seq as int, self.time_unit.spec_tick_cap(),
            );
        }
        let cap = self.time_unit.tick_cap();
        let nc = if now > cap { cap } else { now };
        let mut tick = if nc > self.last_tick { nc } else { self.last_tick };
        let mut seq: i64 = if tick == self.last_tick { self.last_seq + 1 } else { 0 };
        if seq > self.max_seq {
            if tick < cap {
                tick = tick + 1;
                seq = 0;
            } else {
                seq = self.max_seq;
            }
        }
        self.last_tick = tick;
        self.last_seq = seq;
        proof {
            assert((self.last_tick as int, self.last_seq as int) == plain_step(
                old(self).spec_tick(), old(self).spec_seq(), now as int,
                pow10(old(self).spec_w()) - 1, old(self).spec_unit().spec_tick_cap(),
            ));
        }
        let mut out = self.ts_for_tick(tick);
        proof {
            reveal_strlit(".");
            reveal_strlit("Z");
        }
        out.append(".");
        out.append(render_num(seq as u64, self.w).as_str());
        out.append("Z");
        proof {
            assert(out@ =~= wid_core_str(tick as int, seq as int, self.w as nat, self.time_unit));
        }
        let pad = render_pad(self.z);
        out.append(pad.as_str());
        proof {
            assert(pad_ok(pad@, self.z as int) && out@ == wid_core_str(
                self.last_tick as int, self.last_seq as int, self.w as nat, self.time_unit,
            ) + pad@);
        }
        out
    }

    /// Generates the next identifier from the wall clock.
    pub fn next_wid(&mut self) -> (r: String)
        requires
            old(self).wf(),
        ensures
            final(self).wf(),
            final(self).spec_w() == old(self).spec_w(),
            final(self).spec_z() == old(self).spec_z(),
            final(self).spec_unit() == old(self).spec_unit(),
            exists|now: int| 0 <= now && (final(self).spec_tick(), final(self).spec_seq())
                == #[trigger] plain_step(old(self).spec_tick(), old(self).spec_seq(), now,
                    pow10(old(self).spec_w()) - 1, old(self).spec_unit().spec_tick_cap()),
            0 <= final(self).spec_seq() < pow10(old(self).spec_w()),
            old(self).spec_tick() < old(self).spec_unit().spec_tick_cap()
                || old(self).spec_seq() < pow10(old(self).spec_w()) - 1
                ==> state_lt(old(self).spec_tick(), old(self).spec_seq(),
                    final(self).spec_tick(), final(self).spec_seq()),
            exists|p: Seq<char>| #[trigger] pad_ok(p, old(self).spec_z()) && r@ == wid_core_str(
                final(self).spec_tick(), final(self).spec_seq(), old(self).spec_w(),
                old(self).spec_unit(),
            ) + p,
    {
        let now = crate::sys::wall_clock_tick(self.time_unit);
        let r = self.next_wid_at(now);
        proof {
            let witness = now as int;
            assert(0 <= witness && (final(self).spec_tick(), final(self).spec_seq())
                == #[trigger] plain_step(old(self).spec_tick(), old(self).spec_seq(), witness,
                    pow10(old(self).spec_w()) - 1, old(self).spec_unit().spec_tick_cap()));
        }
        r
    }

    /// Generates `n` identifiers; while the generator stays below the end of
    /// its representable range they are strictly increasing.
    pub fn next_n(&mut self, n: usize) -> (r: Vec<String>)
        requires
            old(self).wf(),
        ensures
            final(self).wf(),
            final(self).spec_w() == old(self).spec_w(),
            final(self).spec_z() == old(self).spec_z(),
            final(self).spec_unit() == old(self).spec_unit(),
            r.len() == n,
            exists|sts: Seq<(int, int)>| #[trigger] wid_batch(
                sts, r@, old(self).spec_w(), old(self).spec_z(), old(self).spec_unit(),
            ) && sts[0] == (old(self).spec_tick(), old(self).spec_seq())
                && sts[sts.len() - 1] == (final(self).spec_tick(), final(self).spec_seq()),
            forall|i: int| #![trigger r@[i]] 0 <= i < n as int
                ==> exists|t: int, s: int, p: Seq<char>|
                    #![trigger pad_ok(p, old(self).spec_z()),
                        wid_core_str(t, s, old(self).spec_w(), old(self).spec_unit())]
                    0 <= t <= old(self).spec_unit().spec_tick_cap()
                        && 0 <= s < pow10(old(self).spec_w())
                        && pad_ok(p, old(self).spec_z())
                        && r@[i]@ == wid_core_str(
                            t, s, old(self).spec_w(), old(self).spec_unit(),
                        ) + p,
            !(final(self).spec_tick() == final(self).spec_unit().spec_tick_cap()
                && final(self).spec_seq() == pow10(final(self).spec_w()) - 1)
                ==> forall|i: int| 0 <= i < n as int - 1
                    ==> lex_lt(#[trigger] r@[i]@, r@[i + 1]@),
    {
        let ghost w0 = self.spec_w();
        let ghost z0 = self.spec_z();
        let ghost u0 = self.spec_unit();
        let ghost t0g = self.spec_tick();
        let ghost s0g = self.spec_seq();
        let ghost mut sts: Seq<(int, int)> = seq![(t0g, s0g)];
        let mut out: Vec<String> = Vec::new();
        let mut i: usize = 0;
        while i < n
            invariant
                self.wf(),
                self.spec_w() == w0,
                self.spec_z() == z0,
                self.spec_unit() == u0,
                out.len() == i,
                i <= n,
                sts.len() == i + 1,
                sts[0] == (t0g, s0g),
                sts[i as int] == (self.spec_tick(), self.spec_seq()),
                wid_batch(sts, out@, w0, z0, u0),
                i > 0 ==> 0 <= self.spec_seq() < pow10(w0),
                i > 0 ==> exists|p: Seq<char>| pad_ok(p, z0) && out@[i as int - 1]@
                    == wid_core_str(self.spec_tick(), self.spec_seq(), w0, u0) + p,
                forall|j: int| #![trigger out@[j]] 0 <= j < i as int
                    ==> exists|t: int, s: int, p: Seq<char>|
                        #![trigger pad_ok(p, z0), wid_core_str(t, s, w0, u0)]
                        0 <= t <= u0.spec_tick_cap() && 0 <= s < pow10(w0) && pad_ok(p, z0)
                            && out@[j]@ == wid_core_str(t, s, w0, u0) + p,
                !(self.spec_tick() == u0.spec_tick_cap() && self.spec_seq() == pow10(w0) - 1)
                    ==> forall|j: int| 0 <= j < i as int - 1
                        ==> lex_lt(#[trigger] out@[j]@, out@[j + 1]@),
            decreases n - i,
        {
            let ghost pre_tick = self.spec_tick();
            let ghost pre_seq = self.spec_seq();
            let s = self.next_wid();
            proof {
                self.lemma_wf_bounds();
                let p_el = choose|p: Seq<char>| #[trigger] pad_ok(p, z0) && s@
                    == wid_core_str(self.spec_tick(), self.spec_seq(), w0, u0) + p;
                assert(0 <= self.spec_tick() <= u0.spec_tick_cap()
                    && 0 <= self.spec_seq() < pow10(w0) && pad_ok(p_el, z0)
                    && s@ == wid_core_str(self.spec_tick(), self.spec_seq(), w0, u0) + p_el);
            }
            proof {
                let now = choose|now: int| 0 <= now && (self.spec_tick(), self.spec_seq())
                    == #[trigger] plain_step(pre_tick, pre_seq, now, pow10(w0) - 1,
                        u0.spec_tick_cap());
                if pre_tick == u0.spec_tick_cap() && pre_seq == pow10(w0) - 1 {
                    lemma_plain_step(pre_tick, pre_seq, now, pow10(w0) - 1, u0.spec_tick_cap());
                }
                if !(self.spec_tick() == u0.spec_tick_cap() && self.spec_seq() == pow10(w0) - 1)
                    && i > 0 {
                    let p_prev = choose|p: Seq<char>| pad_ok(p, z0) && out@[i as int - 1]@
                        == wid_core_str(pre_tick, pre_seq, w0, u0) + p;
                    let p_new = choose|p: Seq<char>| pad_ok(p, z0) && s@
                        == wid_core_str(self.spec_tick(), self.spec_seq(), w0, u0) + p;
                    lemma_wid_str_monotone(
                        pre_tick, pre_seq, self.spec_tick(), self.spec_seq(), w0, z0, u0,
                        p_prev, p_new,
                    );
                }
            }
            let ghost sts_old = sts;
            let ghost out_old = out@;
            proof {
                sts = sts.push((self.spec_tick(), self.spec_seq()));
            }
            out.push(s);
            proof {
                let now2 = choose|now: int| 0 <= now && (self.spec_tick(), self.spec_seq())
                    == #[trigger] plain_step(pre_tick, pre_seq, now, pow10(w0) - 1,
                        u0.spec_tick_cap());
                let p2 = choose|p: Seq<char>| #[trigger] pad_ok(p, z0) && s@
                    == wid_core_str(self.spec_tick(), self.spec_seq(), w0, u0) + p;
                assert(sts_old[i as int] == (pre_tick, pre_seq));
                lemma_wid_batch_push(
                    sts_old, out_old, w0, z0, u0,
                    (self.spec_tick(), self.spec_seq()), s, now2, p2,
                );
                assert(sts =~= sts_old.push((self.spec_tick(), self.spec_seq())));
                assert(out@ =~= out_old.push(s));
            }
            i = i + 1;
        }
        proof {
            assert(wid_batch(sts, out@, w0, z0, u0) && sts[0] == (t0g, s0g)
                && sts[sts.len() - 1] == (self.spec_tick(), self.spec_seq()));
        }
        out
    }

    /// Restores a previously persisted state: a tick inside the codec's
    /// range and a sequence inside the counter's width, as `state` returns
    /// them.  The narrowing against arbitrary integer pairs is intended:
    /// a tick beyond the codec's cap or a sequence outside the field's
    /// width denotes no state the fixed-width grammar can render, so such
    /// pairs are left out of the domain rather than stored and broken
    /// later.
    pub fn restore_state(&mut self, last_tick: i64, last_seq: i64)
        requires
            old(self).wf(),
            0 <= last_tick <= old(self).spec_unit().spec_tick_cap(),
            -1 <= last_seq < pow10(old(self).spec_w()),
        ensures
            final(self).wf(),
            final(self).spec_w() == old(self).spec_w(),
            final(self).spec_z() == old(self).spec_z(),
            final(self).spec_unit() == old(self).spec_unit(),
            final(self).spec_tick() == last_tick,
            final(self).spec_seq() == last_seq,
    {
        self.last_tick = last_tick;
        self.last_seq = last_seq;
    }

    /// The current (tick, sequence) state.
    pub fn state(&self) -> (r: (i64, i64))
        ensures
            r.0 == self.spec_tick(),
            r.1 == self.spec_seq(),
    {
        (self.last_tick, self.last_seq)
    }

    /// The generator's time unit.
    pub fn time_unit(&self) -> (r: TimeUnit)
        ensures
            r == self.spec_unit(),
    {
        self.time_unit
    }
}

/// Draws a fresh padding block: empty for `z == 0`, else `-` and `z` random
/// lowercase hexadecimal digits.
pub(crate) fn render_pad(z: usize) -> (r: String)
    ensures
        pad_ok(r@, z as int),
{
    let mut s = String::new();
    if z == 0 {
        return s;
    }
    proof {
        reveal_strlit("-");
    }
    s.append("-");
    let mut i: usize = 0;
    while i < z
        invariant
            i <= z,
            s@.len() == i + 1,
            s@[0] == '-',
            all_lower_hex(s@.subrange(1, s@.len() as int)),
        decreases z - i,
    {
        let d = crate::sys::random_hex_index();
        let ghost before = s@;
        s.append(digit_str(d));
        proof {
            assert(s@ =~= before.push(crate::text::hex_char(d as int)));
            let t = s@.subrange(1, s@.len() as int);
            assert(t =~= before.subrange(1, before.len() as int).push(
                crate::text::hex_char(d as int)));
            assert(forall|j: int| 0 <= j < t.len() ==> crate::text::is_lower_hex(#[trigger] t[j]));
        }
        i = i + 1;
    }
    s
}

} // verus!
