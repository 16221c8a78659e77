//! The timestamp codec: ticks rendered as `YYYYMMDDTHHMMSS[mmm]`.
//!
//! A tick is a whole number of seconds or milliseconds since the epoch.  The
//! codec renders a tick as a fixed-width civil timestamp; identifiers start
//! with this field, so its lexicographic order must agree with the numeric
//! order of ticks.  `lemma_ts_str_monotone` states exactly that, up to the
//! tick cap, which keeps every rendered year at four digits.

use vstd::prelude::*;
use vstd::arithmetic::div_mod::{
    lemma_div_is_ordered, lemma_div_pos_is_pos, lemma_fundamental_div_mod, lemma_remainder_lower,
    lemma_remainder_upper,
};

use crate::cal::{
    days_of_ymd, days_before_year, lemma_days_of_ymd_monotone, lemma_dby_lower, lemma_ymd_of_days,
    valid_hms, valid_ymd, ymd_of_days, ymd_from_days,
};
use crate::text::{
    lemma_digits_val_bound,
    all_digits, digits_val, lemma_lex_lt_append, lemma_lex_lt_common_prefix, lemma_num_str_len,
    lemma_num_str_monotone, lemma_num_str_val, lex_lt, num_str, pow10, render_num,
};

verus! {

/// Timestamp precision of a generator: whole seconds or milliseconds.
#[derive(Debug, Clone, Copy, PartialEq, Eq, Structural)]
pub enum TimeUnit {
    Sec,
    Ms,
}

/// Highest tick the codec renders, chosen safely below year 10000 so that
/// every rendered year has exactly four digits.
pub const TICK_CAP_SEC: i64 = 253234079999;

/// The same cap for millisecond ticks.
pub const TICK_CAP_MS: i64 = 253234079999999;

/// Day index bound corresponding to the tick caps: `TICK_CAP_SEC` lies on
/// day 2930949, and year 10000 starts at day 2932897 or later.
pub const DAY_CAP: i64 = 2930949;

impl TimeUnit {
    /// The number of digits in the time-of-day block of the grammar.
    pub open spec fn spec_time_digits(self) -> int {
        match self {
            TimeUnit::Sec => 6,
            TimeUnit::Ms => 9,
        }
    }

    /// Highest tick the codec renders for this unit.
    pub open spec fn spec_tick_cap(self) -> int {
        match self {
            TimeUnit::Sec => TICK_CAP_SEC as int,
            TimeUnit::Ms => TICK_CAP_MS as int,
        }
    }

    /// The unit's name in external interfaces.
    pub open spec fn spec_str(self) -> Seq<char> {
        match self {
            TimeUnit::Sec => seq!['s', 'e', 'c'],
            TimeUnit::Ms => seq!['m', 's'],
        }
    }

    pub fn time_digits(self) -> (r: usize)
        ensures
            r == self.spec_time_digits(),
    {
        match self {
            TimeUnit::Sec => 6,
            TimeUnit::Ms => 9,
        }
    }

    pub fn tick_cap(self) -> (r: i64)
        ensures
            r == self.spec_tick_cap(),
    {
        match self {
            TimeUnit::Sec => TICK_CAP_SEC,
            TimeUnit::Ms => TICK_CAP_MS,
        }
    }

    /// The unit's name: `sec` or `ms`.
    pub fn as_str(self) -> (r: &'static str)
        ensures
            r@ == self.spec_str(),
    {
        proof {
            reveal_strlit("sec");
            reveal_strlit("ms");
        }
        match self {
            TimeUnit::Sec => "sec",
            TimeUnit::Ms => "ms",
        }
    }

    /// Parses a unit name; accepts exactly `sec` and `ms`.
    pub fn parse(s: &str) -> (r: Option<TimeUnit>)
        ensures
            r == Some(TimeUnit::Sec) <==> s@ == TimeUnit::Sec.spec_str(),
            r == Some(TimeUnit::Ms) <==> s@ == TimeUnit::Ms.spec_str(),
            r is None <==> (s@ != TimeUnit::Sec.spec_str() && s@ != TimeUnit::Ms.spec_str()),
    {
        let n = s.unicode_len();
        if n == 3 && s.get_char(0) == 's' && s.get_char(1) == 'e' && s.get_char(2) == 'c' {
            proof {
                assert(s@ =~= TimeUnit::Sec.spec_str());
            }
            Some(TimeUnit::Sec)
        } else if n == 2 && s.get_char(0) == 'm' && s.get_char(1) == 's' {
            proof {
                assert(s@ =~= TimeUnit::Ms.spec_str());
            }
            Some(TimeUnit::Ms)
        } else {
            proof {
                if s@ == TimeUnit::Sec.spec_str() {
                    assert(s@.len() == 3 && s@[0] == 's' && s@[1] == 'e' && s@[2] == 'c');
                }
                if s@ == TimeUnit::Ms.spec_str() {
                    assert(s@.len() == 2 && s@[0] == 'm' && s@[1] == 's');
                }
            }
            None
        }
    }
}

/// A decoded UTC timestamp with the precision the grammar can express.
#[derive(Debug, Clone, Copy, PartialEq, Eq, Structural)]
pub struct UtcTime {
    pub year: u16,
    pub month: u8,
    pub day: u8,
    pub hour: u8,
    pub minute: u8,
    pub second: u8,
    pub milli: u16,
}

impl UtcTime {
    /// A legal calendar date and time of day, milliseconds included.
    pub open spec fn wf(self) -> bool {
        valid_ymd(self.year as int, self.month as int, self.day as int)
            && valid_hms(self.hour as int, self.minute as int, self.second as int)
            && self.milli <= 999
    }

    /// Seconds since 1970-01-01T00:00:00 UTC (negative before it).
    pub open spec fn spec_timestamp(self) -> int {
        days_of_ymd(self.year as int, self.month as int, self.day as int) * 86400
            + self.hour as int * 3600 + self.minute as int * 60 + self.second as int
    }

    /// Unix timestamp in seconds.
    pub fn timestamp(&self) -> (r: i64)
        requires
            self.wf(),
        ensures
            r == self.spec_timestamp(),
    {
        let days = crate::cal::days_from_ymd(self.year as i64, self.month as i64, self.day as i64);
        proof {
            crate::cal::lemma_days_in_year_bound(self.year as int, self.month as int, self.day as int);
            if self.year as int > 1970 {
                crate::cal::lemma_dby_monotone(1970, self.year as int);
                lemma_dby_upper(self.year as int);
            } else if (self.year as int) < 1970 {
                crate::cal::lemma_dby_monotone(self.year as int, 1970);
                lemma_dby_neg_lower(self.year as int);
            }
        }
        days * 86400 + (self.hour as i64) * 3600 + (self.minute as i64) * 60 + self.second as i64
    }

    /// Milliseconds within the second.
    pub fn timestamp_subsec_millis(&self) -> (r: u32)
        ensures
            r == self.milli,
    {
        self.milli as u32
    }
}

/// Day counts grow by at most 366 a year.
pub proof fn lemma_dby_upper(y: int)
    requires
        y >= 1970,
    ensures
        days_before_year(y) <= 366 * (y - 1970),
    decreases y - 1970,
{
    if y > 1970 {
        lemma_dby_upper(y - 1);
        crate::cal::lemma_dby_next(y - 1);
    }
}

/// Day counts before 1970 shrink by at most 366 a year.
pub proof fn lemma_dby_neg_lower(y: int)
    requires
        0 <= y <= 1970,
    ensures
        days_before_year(y) >= -366 * (1970 - y),
    decreases 1970 - y,
{
    if y < 1970 {
        lemma_dby_neg_lower(y + 1);
        crate::cal::lemma_dby_next(y);
    }
}

/// The date block `YYYYMMDD` of day index `days`.
pub open spec fn date_str(days: int) -> Seq<char> {
    let f = ymd_of_days(days);
    num_str(f.0 as nat, 4) + num_str(f.1 as nat, 2) + num_str(f.2 as nat, 2)
}

/// The time-of-day block `HHMMSS` of second-of-day `sod`.
pub open spec fn tod_str(sod: int) -> Seq<char> {
    num_str((sod / 3600) as nat, 2) + num_str(((sod % 3600) / 60) as nat, 2)
        + num_str(((sod % 3600) % 60) as nat, 2)
}

/// The full timestamp of a tick counted in seconds.
pub open spec fn ts_sec_str(secs: int) -> Seq<char> {
    date_str(secs / 86400) + seq!['T'] + tod_str(secs % 86400)
}

/// The full timestamp of a tick in the given unit: second precision renders
/// 15 characters, millisecond precision appends the three millisecond digits.
pub open spec fn ts_str(tick: int, unit: TimeUnit) -> Seq<char> {
    match unit {
        TimeUnit::Sec => ts_sec_str(tick),
        TimeUnit::Ms => ts_sec_str(tick / 1000) + num_str((tick % 1000) as nat, 3),
    }
}

pub proof fn lemma_pow10_values()
    ensures
        pow10(1) == 10,
        pow10(2) == 100,
        pow10(3) == 1000,
        pow10(4) == 10000,
        pow10(9) == 1000000000,
{
    assert(pow10(0) == 1);
    assert(pow10(1) == 10 * pow10(0));
    assert(pow10(2) == 10 * pow10(1));
    assert(pow10(3) == 10 * pow10(2));
    assert(pow10(4) == 10 * pow10(3));
    assert(pow10(5) == 10 * pow10(4));
    assert(pow10(6) == 10 * pow10(5));
    assert(pow10(7) == 10 * pow10(6));
    assert(pow10(8) == 10 * pow10(7));
    assert(pow10(9) == 10 * pow10(8));
}

/// Splits a division: comparing two numbers compares (quotient, remainder)
/// pairs lexicographically.
pub proof fn lemma_split_div(t1: int, t2: int, d: int)
    requires
        0 <= t1 <= t2,
        0 < d,
    ensures
        0 <= t1 / d <= t2 / d,
        0 <= t1 % d < d,
        0 <= t2 % d < d,
        t1 == d * (t1 / d) + t1 % d,
        t2 == d * (t2 / d) + t2 % d,
        t1 < t2 ==> (t1 / d < t2 / d || (t1 / d == t2 / d && t1 % d < t2 % d)),
{
    lemma_fundamental_div_mod(t1, d);
    lemma_fundamental_div_mod(t2, d);
    lemma_div_is_ordered(t1, t2, d);
    lemma_div_pos_is_pos(t1, d);
    lemma_remainder_lower(t1, d);
    lemma_remainder_upper(t1, d);
    lemma_remainder_lower(t2, d);
    lemma_remainder_upper(t2, d);
}

/// The bounds of the three time-of-day fields.
pub proof fn lemma_tod_fields(sod: int)
    requires
        0 <= sod < 86400,
    ensures
        valid_hms(sod / 3600, (sod % 3600) / 60, (sod % 3600) % 60),
        sod == (sod / 3600) * 3600 + ((sod % 3600) / 60) * 60 + (sod % 3600) % 60,
{
    lemma_split_div(sod, sod, 3600);
    let r = sod % 3600;
    lemma_split_div(r, r, 60);
    let h = sod / 3600;
    assert(h <= 23) by {
        if h >= 24 {
            assert(3600 * h >= 3600 * 24);
        }
    }
    let mi = r / 60;
    assert(mi <= 59) by {
        if mi >= 60 {
            assert(60 * mi >= 60 * 60);
        }
    }
}

/// Concatenation of three fixed-width fields is ordered by the leftmost
/// field that differs.
pub proof fn lemma_lex_cat3(
    a1: Seq<char>, b1: Seq<char>, c1: Seq<char>,
    a2: Seq<char>, b2: Seq<char>, c2: Seq<char>,
)
    requires
        a1.len() == a2.len(),
        b1.len() == b2.len(),
        lex_lt(a1, a2) || (a1 == a2 && (lex_lt(b1, b2) || (b1 == b2 && lex_lt(c1, c2)))),
    ensures
        lex_lt(a1 + b1 + c1, a2 + b2 + c2),
{
    if lex_lt(a1, a2) {
        lemma_lex_lt_append(a1, a2, b1 + c1, b2 + c2);
        assert(a1 + (b1 + c1) =~= a1 + b1 + c1);
        assert(a2 + (b2 + c2) =~= a2 + b2 + c2);
    } else if lex_lt(b1, b2) {
        lemma_lex_lt_append(b1, b2, c1, c2);
        lemma_lex_lt_common_prefix(a1, b1 + c1, b2 + c2);
        assert(a1 + (b1 + c1) =~= a1 + b1 + c1);
        assert(a2 + (b2 + c2) =~= a2 + b2 + c2);
    } else {
        lemma_lex_lt_common_prefix(a1 + b1, c1, c2);
        assert(a1 + b1 =~= a2 + b2);
    }
}

/// The date block is 8 digits and ordered like the day index.
pub proof fn lemma_date_str_wf(days: int)
    requires
        0 <= days,
        days < days_before_year(10000),
    ensures
        date_str(days).len() == 8,
        all_digits(date_str(days)),
        date_str(days).subrange(0, 4) == num_str(ymd_of_days(days).0 as nat, 4),
        date_str(days).subrange(4, 6) == num_str(ymd_of_days(days).1 as nat, 2),
        date_str(days).subrange(6, 8) == num_str(ymd_of_days(days).2 as nat, 2),
{
    lemma_ymd_of_days(days);
    let f = ymd_of_days(days);
    let a = num_str(f.0 as nat, 4);
    let b = num_str(f.1 as nat, 2);
    let c = num_str(f.2 as nat, 2);
    lemma_num_str_len(f.0 as nat, 4);
    lemma_num_str_len(f.1 as nat, 2);
    lemma_num_str_len(f.2 as nat, 2);
    let s = date_str(days);
    assert(s.subrange(0, 4) =~= a);
    assert(s.subrange(4, 6) =~= b);
    assert(s.subrange(6, 8) =~= c);
    assert forall|i: int| 0 <= i < s.len() implies crate::text::is_digit(#[trigger] s[i]) by {
        if i < 4 {
            assert(s[i] == a[i]);
        } else if i < 6 {
            assert(s[i] == b[i - 4]);
        } else {
            assert(s[i] == c[i - 6]);
        }
    }
}

/// The date block is strictly monotone in the day index.
pub proof fn lemma_date_str_monotone(d1: int, d2: int)
    requires
        0 <= d1 < d2,
        d2 < days_before_year(10000),
    ensures
        lex_lt(date_str(d1), date_str(d2)),
{
    lemma_ymd_of_days(d1);
    lemma_ymd_of_days(d2);
    lemma_pow10_values();
    let f1 = ymd_of_days(d1);
    let f2 = ymd_of_days(d2);
    if !((f1.0 < f2.0) || (f1.0 == f2.0 && f1.1 < f2.1)
        || (f1.0 == f2.0 && f1.1 == f2.1 && f1.2 < f2.2)) {
        if f1 == f2 {
            assert(days_of_ymd(f1.0, f1.1, f1.2) == d1);
            assert(false);
        } else {
            lemma_days_of_ymd_monotone(f2.0, f2.1, f2.2, f1.0, f1.1, f1.2);
            assert(false);
        }
    }
    lemma_num_str_len(f1.0 as nat, 4);
    lemma_num_str_len(f2.0 as nat, 4);
    lemma_num_str_len(f1.1 as nat, 2);
    lemma_num_str_len(f2.1 as nat, 2);
    if f1.0 < f2.0 {
        lemma_num_str_monotone(f1.0 as nat, f2.0 as nat, 4);
    } else if f1.1 < f2.1 {
        lemma_num_str_monotone(f1.1 as nat, f2.1 as nat, 2);
    } else {
        lemma_num_str_monotone(f1.2 as nat, f2.2 as nat, 2);
    }
    lemma_lex_cat3(
        num_str(f1.0 as nat, 4), num_str(f1.1 as nat, 2), num_str(f1.2 as nat, 2),
        num_str(f2.0 as nat, 4), num_str(f2.1 as nat, 2), num_str(f2.2 as nat, 2),
    );
}

/// The time-of-day block is 6 digits and ordered like the second of day.
pub proof fn lemma_tod_str_wf(sod: int)
    requires
        0 <= sod < 86400,
    ensures
        tod_str(sod).len() == 6,
        all_digits(tod_str(sod)),
{
    lemma_tod_fields(sod);
    let a = num_str((sod / 3600) as nat, 2);
    let b = num_str(((sod % 3600) / 60) as nat, 2);
    let c = num_str(((sod % 3600) % 60) as nat, 2);
    lemma_num_str_len((sod / 3600) as nat, 2);
    lemma_num_str_len(((sod % 3600) / 60) as nat, 2);
    lemma_num_str_len(((sod % 3600) % 60) as nat, 2);
    let s = tod_str(sod);
    assert forall|i: int| 0 <= i < s.len() implies crate::text::is_digit(#[trigger] s[i]) by {
        if i < 2 {
            assert(s[i] == a[i]);
        } else if i < 4 {
            assert(s[i] == b[i - 2]);
        } else {
            assert(s[i] == c[i - 4]);
        }
    }
}

/// The time-of-day block is strictly monotone in the second of day.
pub proof fn lemma_tod_str_monotone(s1: int, s2: int)
    requires
        0 <= s1 < s2 < 86400,
    ensures
        lex_lt(tod_str(s1), tod_str(s2)),
{
    lemma_tod_fields(s1);
    lemma_tod_fields(s2);
    lemma_pow10_values();
    lemma_split_div(s1, s2, 3600);
    let h1 = s1 / 3600;
    let h2 = s2 / 3600;
    let r1 = s1 % 3600;
    let r2 = s2 % 3600;
    lemma_num_str_len(h1 as nat, 2);
    lemma_num_str_len(h2 as nat, 2);
    lemma_num_str_len((r1 / 60) as nat, 2);
    lemma_num_str_len((r2 / 60) as nat, 2);
    if h1 < h2 {
        lemma_num_str_monotone(h1 as nat, h2 as nat, 2);
    } else {
        lemma_split_div(r1, r2, 60);
        if r1 / 60 < r2 / 60 {
            lemma_num_str_monotone((r1 / 60) as nat, (r2 / 60) as nat, 2);
        } else {
            lemma_num_str_monotone((r1 % 60) as nat, (r2 % 60) as nat, 2);
        }
    }
    lemma_lex_cat3(
        num_str(h1 as nat, 2), num_str((r1 / 60) as nat, 2), num_str((r1 % 60) as nat, 2),
        num_str(h2 as nat, 2), num_str((r2 / 60) as nat, 2), num_str((r2 % 60) as nat, 2),
    );
}

/// A second tick below the cap stays below year 10000 in day count.
pub proof fn lemma_secs_in_range(secs: int)
    requires
        0 <= secs <= TICK_CAP_SEC,
    ensures
        0 <= secs / 86400 <= DAY_CAP,
        0 <= secs % 86400 < 86400,
        secs / 86400 < days_before_year(10000),
    decreases 0int,
{
    lemma_split_div(secs, secs, 86400);
    let days = secs / 86400;
    assert(days <= DAY_CAP) by {
        if days > DAY_CAP {
            assert(86400 * days >= 86400 * (DAY_CAP + 1));
        }
    }
    lemma_dby_lower(10000);
}

/// The second-precision timestamp: 15 characters, `T` in the middle,
/// digits everywhere else, strictly monotone in the tick.
pub proof fn lemma_ts_sec_str_wf(secs: int)
    requires
        0 <= secs <= TICK_CAP_SEC,
    ensures
        ts_sec_str(secs).len() == 15,
        ts_sec_str(secs).subrange(0, 8) == date_str(secs / 86400),
        ts_sec_str(secs)[8] == 'T',
        ts_sec_str(secs).subrange(9, 15) == tod_str(secs % 86400),
        all_digits(ts_sec_str(secs).subrange(0, 8)),
        all_digits(ts_sec_str(secs).subrange(9, 15)),
{
    lemma_secs_in_range(secs);
    lemma_date_str_wf(secs / 86400);
    lemma_tod_str_wf(secs % 86400);
    let s = ts_sec_str(secs);
    assert(s.subrange(0, 8) =~= date_str(secs / 86400));
    assert(s.subrange(9, 15) =~= tod_str(secs % 86400));
    assert(s[8] == 'T');
}

pub proof fn lemma_ts_sec_str_monotone(t1: int, t2: int)
    requires
        0 <= t1 < t2 <= TICK_CAP_SEC,
    ensures
        lex_lt(ts_sec_str(t1), ts_sec_str(t2)),
{
    lemma_secs_in_range(t1);
    lemma_secs_in_range(t2);
    lemma_split_div(t1, t2, 86400);
    lemma_date_str_wf(t1 / 86400);
    lemma_date_str_wf(t2 / 86400);
    if t1 / 86400 < t2 / 86400 {
        lemma_date_str_monotone(t1 / 86400, t2 / 86400);
    } else {
        lemma_tod_str_monotone(t1 % 86400, t2 % 86400);
    }
    lemma_lex_cat3(
        date_str(t1 / 86400), seq!['T'], tod_str(t1 % 86400),
        date_str(t2 / 86400), seq!['T'], tod_str(t2 % 86400),
    );
}

/// A millisecond tick below the cap has its whole-second part below the
/// second-precision cap.
pub proof fn lemma_ms_in_range(tick: int)
    requires
        0 <= tick <= TICK_CAP_MS,
    ensures
        0 <= tick / 1000 <= TICK_CAP_SEC,
        0 <= tick % 1000 < 1000,
{
    lemma_split_div(tick, tick, 1000);
    let secs = tick / 1000;
    if secs > TICK_CAP_SEC {
        assert(1000 * secs >= 1000 * (TICK_CAP_SEC + 1));
    }
}

/// How long a rendered timestamp is in each unit.
pub open spec fn ts_len(unit: TimeUnit) -> int {
    match unit {
        TimeUnit::Sec => 15,
        TimeUnit::Ms => 18,
    }
}

/// Shape of the rendered timestamp in either unit.
pub proof fn lemma_ts_str_wf(tick: int, unit: TimeUnit)
    requires
        0 <= tick <= unit.spec_tick_cap(),
    ensures
        ts_str(tick, unit).len() == ts_len(unit),
        ts_str(tick, unit).subrange(0, 8) == date_str(tick_secs(tick, unit) / 86400),
        ts_str(tick, unit)[8] == 'T',
        all_digits(ts_str(tick, unit).subrange(0, 8)),
        all_digits(ts_str(tick, unit).subrange(9, ts_len(unit))),
{
    match unit {
        TimeUnit::Sec => {
            lemma_ts_sec_str_wf(tick);
        }
        TimeUnit::Ms => {
            lemma_ms_in_range(tick);
            lemma_ts_sec_str_wf(tick / 1000);
            lemma_pow10_values();
            lemma_num_str_len((tick % 1000) as nat, 3);
            let base = ts_sec_str(tick / 1000);
            let ms = num_str((tick % 1000) as nat, 3);
            let s = ts_str(tick, unit);
            assert(s.subrange(0, 8) =~= base.subrange(0, 8));
            assert(s[8] == base[8]);
            let t = s.subrange(9, 18);
            assert forall|i: int| 0 <= i < t.len() implies crate::text::is_digit(#[trigger] t[i]) by {
                if i < 6 {
                    assert(t[i] == base.subrange(9, 15)[i]);
                } else {
                    assert(t[i] == ms[i - 6]);
                }
            }
        }
    }
}

/// The whole-second part of a tick in the given unit.
pub open spec fn tick_secs(tick: int, unit: TimeUnit) -> int {
    match unit {
        TimeUnit::Sec => tick,
        TimeUnit::Ms => tick / 1000,
    }
}

/// Monotonicity of the full timestamp in either unit: rendering preserves
/// the order of ticks as lexicographic string order.
pub proof fn lemma_ts_str_monotone(t1: int, t2: int, unit: TimeUnit)
    requires
        0 <= t1 < t2 <= unit.spec_tick_cap(),
    ensures
        lex_lt(ts_str(t1, unit), ts_str(t2, unit)),
{
    match unit {
        TimeUnit::Sec => {
            lemma_ts_sec_str_monotone(t1, t2);
        }
        TimeUnit::Ms => {
            lemma_ms_in_range(t1);
            lemma_ms_in_range(t2);
            lemma_split_div(t1, t2, 1000);
            lemma_ts_sec_str_wf(t1 / 1000);
            lemma_ts_sec_str_wf(t2 / 1000);
            lemma_pow10_values();
            if t1 / 1000 < t2 / 1000 {
                lemma_ts_sec_str_monotone(t1 / 1000, t2 / 1000);
                lemma_lex_lt_append(
                    ts_sec_str(t1 / 1000), ts_sec_str(t2 / 1000),
                    num_str((t1 % 1000) as nat, 3), num_str((t2 % 1000) as nat, 3),
                );
            } else {
                lemma_num_str_monotone((t1 % 1000) as nat, (t2 % 1000) as nat, 3);
                lemma_lex_lt_common_prefix(
                    ts_sec_str(t1 / 1000),
                    num_str((t1 % 1000) as nat, 3), num_str((t2 % 1000) as nat, 3),
                );
            }
        }
    }
}

/// Renders the timestamp block of a second tick.
fn render_ts_sec(secs: i64) -> (r: String)
    requires
        0 <= secs <= TICK_CAP_SEC,
    ensures
        r@ =~= ts_sec_str(secs as int),
{
    proof {
        lemma_secs_in_range(secs as int);
        lemma_tod_fields(secs as int % 86400);
    }
    let days = secs / 86400;
    let sod = secs % 86400;
    let ymd = ymd_from_days(days);
    let h = sod / 3600;
    let rm = sod % 3600;
    let mi = rm / 60;
    let sec = rm % 60;
    let mut s = render_num(ymd.0 as u64, 4);
    s.append(render_num(ymd.1 as u64, 2).as_str());
    s.append(render_num(ymd.2 as u64, 2).as_str());
    proof {
        reveal_strlit("T");
    }
    s.append("T");
    s.append(render_num(h as u64, 2).as_str());
    s.append(render_num(mi as u64, 2).as_str());
    s.append(render_num(sec as u64, 2).as_str());
    proof {
        assert(s@ =~= ts_sec_str(secs as int));
    }
    s
}

/// Renders the timestamp block of a tick in the given unit.
pub fn render_ts(tick: i64, unit: TimeUnit) -> (r: String)
    requires
        0 <= tick,
        tick <= unit.spec_tick_cap(),
    ensures
        r@ =~= ts_str(tick as int, unit),
        r@.len() == ts_len(unit),
{
    proof {
        lemma_ts_str_wf(tick as int, unit);
    }
    match unit {
        TimeUnit::Sec => render_ts_sec(tick),
        TimeUnit::Ms => {
            proof {
                lemma_ms_in_range(tick as int);
            }
            let mut s = render_ts_sec(tick / 1000);
            let ms = render_num((tick % 1000) as u64, 3);
            s.append(ms.as_str());
            proof {
                assert(s@ =~= ts_str(tick as int, unit));
            }
            s
        }
    }
}

/// The timestamp fields encoded at the head of an identifier: the date block
/// at offsets 0 to 8, the time block from offset 9 on.
pub open spec fn spec_ts_fields(s: Seq<char>, unit: TimeUnit) -> UtcTime {
    UtcTime {
        year: digits_val(s.subrange(0, 4)) as u16,
        month: digits_val(s.subrange(4, 6)) as u8,
        day: digits_val(s.subrange(6, 8)) as u8,
        hour: digits_val(s.subrange(9, 11)) as u8,
        minute: digits_val(s.subrange(11, 13)) as u8,
        second: digits_val(s.subrange(13, 15)) as u8,
        milli: match unit {
            TimeUnit::Sec => 0,
            TimeUnit::Ms => digits_val(s.subrange(15, 18)) as u16,
        },
    }
}

/// The decoded fields form a legal calendar date and time of day.
pub open spec fn spec_ts_fields_ok(s: Seq<char>, unit: TimeUnit) -> bool {
    spec_ts_fields(s, unit).wf()
}

/// Decodes and validates the timestamp fields of an identifier whose digit
/// blocks have already been checked by the grammar.
pub fn scan_timestamp(s: &str, unit: TimeUnit) -> (r: Option<UtcTime>)
    requires
        s@.len() >= 9 + unit.spec_time_digits(),
        all_digits(s@.subrange(0, 8)),
        all_digits(s@.subrange(9, 9 + unit.spec_time_digits())),
    ensures
        match r {
            Some(t) => spec_ts_fields_ok(s@, unit) && t == spec_ts_fields(s@, unit),
            None => !spec_ts_fields_ok(s@, unit),
        },
{
    proof {
        lemma_pow10_values();
        lemma_subfield_digits(s@, unit);
    }
    let y = match crate::text::scan_field_u32(s, 0, 4) {
        Some(v) => v,
        None => {
            proof {
                lemma_digits_val_bound(s@.subrange(0, 4));
            }
            return None;
        }
    };
    let mo = crate::text::scan_field_u32(s, 4, 6).unwrap();
    let d = crate::text::scan_field_u32(s, 6, 8).unwrap();
    let h = crate::text::scan_field_u32(s, 9, 11).unwrap();
    let mi = crate::text::scan_field_u32(s, 11, 13).unwrap();
    let sec = crate::text::scan_field_u32(s, 13, 15).unwrap();
    let ms: u32 = match unit {
        TimeUnit::Sec => 0,
        TimeUnit::Ms => crate::text::scan_field_u32(s, 15, 18).unwrap(),
    };
    if !(1 <= mo && mo <= 12) {
        return None;
    }
    if !(1 <= d && d as i64 <= crate::cal::days_in_month_x(y as i64, mo as i64)) {
        return None;
    }
    if !(h <= 23 && mi <= 59 && sec <= 59) {
        return None;
    }
    let t = UtcTime {
        year: y as u16,
        month: mo as u8,
        day: d as u8,
        hour: h as u8,
        minute: mi as u8,
        second: sec as u8,
        milli: ms as u16,
    };
    Some(t)
}

/// The digit blocks of the grammar cover each decoded field.
proof fn lemma_subfield_digits(s: Seq<char>, unit: TimeUnit)
    requires
        s.len() >= 9 + unit.spec_time_digits(),
        all_digits(s.subrange(0, 8)),
        all_digits(s.subrange(9, 9 + unit.spec_time_digits())),
    ensures
        all_digits(s.subrange(0, 4)),
        all_digits(s.subrange(4, 6)),
        all_digits(s.subrange(6, 8)),
        all_digits(s.subrange(9, 11)),
        all_digits(s.subrange(11, 13)),
        all_digits(s.subrange(13, 15)),
        unit is Ms ==> all_digits(s.subrange(15, 18)),
        digits_val(s.subrange(0, 4)) < 10000,
        digits_val(s.subrange(4, 6)) < 100,
        digits_val(s.subrange(6, 8)) < 100,
        digits_val(s.subrange(9, 11)) < 100,
        digits_val(s.subrange(11, 13)) < 100,
        digits_val(s.subrange(13, 15)) < 100,
        digits_val(s.subrange(0, 4)) >= 0,
        digits_val(s.subrange(4, 6)) >= 0,
        digits_val(s.subrange(6, 8)) >= 0,
        digits_val(s.subrange(9, 11)) >= 0,
        digits_val(s.subrange(11, 13)) >= 0,
        digits_val(s.subrange(13, 15)) >= 0,
        unit is Ms ==> 0 <= digits_val(s.subrange(15, 18)) < 1000,
{
    let date = s.subrange(0, 8);
    let tod = s.subrange(9, 9 + unit.spec_time_digits());
    assert forall|a: int, b: int| 0 <= a <= b <= 8 implies all_digits(s.subrange(a, b)) by {
        let sub = s.subrange(a, b);
        assert forall|i: int| 0 <= i < sub.len() implies crate::text::is_digit(#[trigger] sub[i]) by {
            assert(sub[i] == date[a + i]);
        }
    }
    assert forall|a: int, b: int| 9 <= a <= b <= 9 + unit.spec_time_digits() implies
        all_digits(s.subrange(a, b)) by {
        let sub = s.subrange(a, b);
        assert forall|i: int| 0 <= i < sub.len() implies crate::text::is_digit(#[trigger] sub[i]) by {
            assert(sub[i] == tod[a - 9 + i]);
        }
    }
    lemma_pow10_values();
    lemma_digits_val_bound(s.subrange(0, 4));
    lemma_digits_val_bound(s.subrange(4, 6));
    lemma_digits_val_bound(s.subrange(6, 8));
    lemma_digits_val_bound(s.subrange(9, 11));
    lemma_digits_val_bound(s.subrange(11, 13));
    lemma_digits_val_bound(s.subrange(13, 15));
    if unit is Ms {
        lemma_digits_val_bound(s.subrange(15, 18));
    }
}

/// Decoding the fields of a rendered timestamp recovers the civil form of
/// the tick: the fields are legal, and their epoch second is the tick's
/// whole-second part.
pub proof fn lemma_ts_str_decode(tick: int, unit: TimeUnit)
    requires
        0 <= tick <= unit.spec_tick_cap(),
    ensures
        ({
            let t = spec_ts_fields(ts_str(tick, unit), unit);
            &&& t.wf()
            &&& t.spec_timestamp() == tick_secs(tick, unit)
            &&& t.milli == (if unit is Ms { tick % 1000 } else { 0int })
        }),
{
    let s = ts_str(tick, unit);
    let secs = tick_secs(tick, unit);
    if unit is Ms {
        lemma_ms_in_range(tick);
    }
    let days = secs / 86400;
    let sod = secs % 86400;
    lemma_secs_in_range(secs);
    lemma_ymd_of_days(days);
    lemma_tod_fields(sod);
    lemma_ts_sec_str_wf(secs);
    lemma_date_str_wf(days);
    lemma_tod_str_wf(sod);
    lemma_pow10_values();
    let base = ts_sec_str(secs);
    let f = ymd_of_days(days);
    let dstr = date_str(days);
    let tstr = tod_str(sod);
    // the date block decodes to the civil date
    assert(s.subrange(0, 8) =~= dstr);
    assert(s.subrange(0, 4) =~= dstr.subrange(0, 4));
    assert(s.subrange(4, 6) =~= dstr.subrange(4, 6));
    assert(s.subrange(6, 8) =~= dstr.subrange(6, 8));
    lemma_num_str_val(f.0 as nat, 4);
    lemma_num_str_val(f.1 as nat, 2);
    lemma_num_str_val(f.2 as nat, 2);
    // the time block decodes to the time of day
    let h = sod / 3600;
    let mi = (sod % 3600) / 60;
    let sec = (sod % 3600) % 60;
    lemma_num_str_len(h as nat, 2);
    lemma_num_str_len(mi as nat, 2);
    lemma_num_str_len(sec as nat, 2);
    assert(s.subrange(9, 15) =~= tstr);
    assert(s.subrange(9, 11) =~= tstr.subrange(0, 2));
    assert(tstr.subrange(0, 2) =~= num_str(h as nat, 2));
    assert(s.subrange(11, 13) =~= tstr.subrange(2, 4));
    assert(tstr.subrange(2, 4) =~= num_str(mi as nat, 2));
    assert(s.subrange(13, 15) =~= tstr.subrange(4, 6));
    assert(tstr.subrange(4, 6) =~= num_str(sec as nat, 2));
    lemma_num_str_val(h as nat, 2);
    lemma_num_str_val(mi as nat, 2);
    lemma_num_str_val(sec as nat, 2);
    if unit is Ms {
        lemma_num_str_len((tick % 1000) as nat, 3);
        assert(s.subrange(15, 18) =~= num_str((tick % 1000) as nat, 3));
        lemma_num_str_val((tick % 1000) as nat, 3);
    }
    let t = spec_ts_fields(s, unit);
    assert(t.year == f.0 && t.month == f.1 && t.day == f.2);
    assert(t.hour == h && t.minute == mi && t.second == sec);
    assert(t.spec_timestamp() == days_of_ymd(f.0, f.1, f.2) * 86400 + h * 3600 + mi * 60 + sec);
    assert(days_of_ymd(f.0, f.1, f.2) == days);
    assert(secs == 86400 * days + sod) by {
        lemma_split_div(secs, secs, 86400);
    }
}

} // verus!
