//! Org timestamp values: active/inactive, date/time, ranges, repeaters and
//! delays, plus the planning-line writer behind Schedule/Deadline edits.
//!
//! Timestamps are parsed from their text by one panic-free scanner shared by
//! the plan-entry path and the `CLOCK:`-line path. A malformed value inside
//! an otherwise-shaped timestamp (month 13, say) makes the whole timestamp
//! unparseable; the caller records `None` and analysis continues.
//!
//! Calendar arithmetic and date formatting are chrono's; the calendar itself
//! (proleptic Gregorian, years -262143..=262142) is stated here as spec
//! functions so that every chrono call has an exact contract.
use core::ops::Range;
use chrono::{Datelike, NaiveDate, NaiveTime, Timelike};
use vstd::prelude::*;
use vstd::string::{StringExecFns, StringSliceAdditionalSpecFns};

use crate::text::{
    bytes_match_at, decimal, digit_char, find_byte, find_byte_at, push_decimal, lemma_find_byte, lemma_parse_bounds, matches_at,
    parse_i32_range, parse_signed_spec, parse_u32_range, parse_u32_spec, skip_ws, skip_ws_at,
    split_ws, substring, decoded, ws_tokens,
};

verus! {

// ---------------------------------------------------------------------------
// The calendar.
// ---------------------------------------------------------------------------

/// Smallest year chrono represents.
pub open spec fn min_year() -> int {
    -262143
}

/// Largest year chrono represents.
pub open spec fn max_year() -> int {
    262142
}

/// Gregorian leap-year rule (proleptic, so year 0 is a leap year).
pub open spec fn is_leap(y: int) -> bool {
    (y % 4 == 0 && y % 100 != 0) || y % 400 == 0
}

/// Number of days in month `m` of year `y`.
pub open spec fn days_in_month(y: int, m: int) -> int {
    if m == 2 {
        if is_leap(y) {
            29
        } else {
            28
        }
    } else if m == 4 || m == 6 || m == 9 || m == 11 {
        30
    } else {
        31
    }
}

/// A calendar day chrono can represent.
pub open spec fn valid_ymd(y: int, m: int, d: int) -> bool {
    min_year() <= y <= max_year() && 1 <= m <= 12 && 1 <= d <= days_in_month(y, m)
}

/// Days from 0001-01-01 to the first day of year `y`.
pub open spec fn days_before_year(y: int) -> int {
    365 * (y - 1) + (y - 1) / 4 - (y - 1) / 100 + (y - 1) / 400
}

/// Days from the first of January to the first day of month `m` of year `y`.
pub open spec fn days_before_month(y: int, m: int) -> int {
    let common: int = if m <= 1 {
        0
    } else if m == 2 {
        31
    } else if m == 3 {
        59
    } else if m == 4 {
        90
    } else if m == 5 {
        120
    } else if m == 6 {
        151
    } else if m == 7 {
        181
    } else if m == 8 {
        212
    } else if m == 9 {
        243
    } else if m == 10 {
        273
    } else if m == 11 {
        304
    } else {
        334
    };
    if m > 2 && is_leap(y) {
        common + 1
    } else {
        common
    }
}

/// Day number of `y-m-d`, counted from 0001-01-01 (day 0, a Monday).
pub open spec fn day_number(y: int, m: int, d: int) -> int {
    days_before_year(y) + days_before_month(y, m) + d - 1
}

/// Weekday of `y-m-d` counted from Sunday (0) to Saturday (6).
pub open spec fn weekday_from_sunday(y: int, m: int, d: int) -> int {
    (day_number(y, m, d) + 1) % 7
}

/// A calendar date (proleptic Gregorian).
#[derive(Debug, Clone, Copy, PartialEq, Eq, Structural)]
pub struct Date {
    /// Year (negative for BCE years; 0 is 1 BCE).
    pub year: i32,
    /// Month, 1..=12.
    pub month: u32,
    /// Day of the month, 1-based.
    pub day: u32,
}

impl Date {
    /// The date names a day that exists.
    pub open spec fn wf(self) -> bool {
        valid_ymd(self.year as int, self.month as int, self.day as int)
    }

    /// Day number of this date (see [`day_number`]).
    pub open spec fn number(self) -> int {
        day_number(self.year as int, self.month as int, self.day as int)
    }

    /// `(year, month, day)` ordering: `self` is strictly earlier than `other`.
    pub open spec fn before(self, other: Date) -> bool {
        self.year < other.year || (self.year == other.year && (self.month < other.month || (
        self.month == other.month && self.day < other.day)))
    }

    /// The date `year-month-day`, or `None` when no such day exists.
    pub fn from_ymd_opt(year: i32, month: u32, day: u32) -> (r: Option<Date>)
        ensures
            r is Some <==> valid_ymd(year as int, month as int, day as int),
            r matches Some(d) ==> d.year == year && d.month == month && d.day == day,
    {
        chrono_from_ymd(year, month, day)
    }

    /// Whether `self` falls strictly before `other` in the calendar.
    pub fn is_before(&self, other: &Date) -> (r: bool)
        ensures
            r == self.before(*other),
    {
        self.year < other.year || (self.year == other.year && (self.month < other.month || (
        self.month == other.month && self.day < other.day)))
    }
}

/// A clock time of day with minute resolution.
#[derive(Debug, Clone, Copy, PartialEq, Eq, Structural)]
pub struct Time {
    /// Hour, 0..=23.
    pub hour: u32,
    /// Minute, 0..=59.
    pub minute: u32,
}

impl Time {
    /// The time names a valid clock reading.
    pub open spec fn wf(self) -> bool {
        self.hour < 24 && self.minute < 60
    }

    /// `hour:minute`, or `None` when out of range.
    pub fn from_hm_opt(hour: u32, minute: u32) -> (r: Option<Time>)
        ensures
            r is Some <==> hour < 24 && minute < 60,
            r matches Some(t) ==> t.hour == hour && t.minute == minute,
    {
        chrono_from_hm(hour, minute)
    }
}

/// `NaiveDate::from_ymd_opt(year, month, day)`: `Some` exactly for a day
/// that exists in chrono's range (years -262143..=262142), carrying the
/// same year, month and day.
#[verifier::external_body]
fn chrono_from_ymd(year: i32, month: u32, day: u32) -> (r: Option<Date>)
    ensures
        r is Some <==> valid_ymd(year as int, month as int, day as int),
        r matches Some(d) ==> d.year == year && d.month == month && d.day == day,
{
    NaiveDate::from_ymd_opt(year, month, day).map(
        |d: NaiveDate| Date { year: d.year(), month: d.month(), day: d.day() },
    )
}

/// `NaiveTime::from_hms_opt(hour, minute, 0)`: `Some` exactly when the hour
/// is below 24 and the minute below 60.
#[verifier::external_body]
fn chrono_from_hm(hour: u32, minute: u32) -> (r: Option<Time>)
    ensures
        r is Some <==> (hour < 24 && minute < 60),
        r matches Some(t) ==> t.hour == hour && t.minute == minute,
{
    NaiveTime::from_hms_opt(hour, minute, 0).map(
        |t: NaiveTime| Time { hour: t.hour(), minute: t.minute() },
    )
}

// ---------------------------------------------------------------------------
// Timestamp model.
// ---------------------------------------------------------------------------

/// How a repeater advances a timestamp when its task is marked done.
#[derive(Debug, Clone, Copy, PartialEq, Eq, Structural)]
pub enum RepeaterKind {
    /// `+` — shift by exactly one interval from the stamped date.
    Cumulate,
    /// `++` — shift by as many intervals as needed to land in the future.
    CatchUp,
    /// `.+` — shift relative to today (restart the interval clock).
    Restart,
}

/// How a `-`/`--` warning delay applies.
#[derive(Debug, Clone, Copy, PartialEq, Eq, Structural)]
pub enum DelayKind {
    /// `-` — delay applies to all occurrences.
    All,
    /// `--` — delay applies to the first occurrence only.
    First,
}

/// Time unit of a repeater or delay interval.
#[derive(Debug, Clone, Copy, PartialEq, Eq, Structural)]
pub enum TimeUnit {
    /// `h`
    Hour,
    /// `d`
    Day,
    /// `w`
    Week,
    /// `m`
    Month,
    /// `y`
    Year,
}

/// A repeater interval, e.g. `+1w`, `++2d`, `.+1m`.
#[derive(Debug, Clone, Copy, PartialEq, Eq, Structural)]
pub struct Repeater {
    /// Repeat strategy (`+`, `++`, `.+`).
    pub kind: RepeaterKind,
    /// Interval count (the `1` in `+1w`).
    pub value: u32,
    /// Interval unit (the `w` in `+1w`).
    pub unit: TimeUnit,
}

/// A warning-delay interval, e.g. `-2d`, `--1w`.
#[derive(Debug, Clone, Copy, PartialEq, Eq, Structural)]
pub struct Delay {
    /// Delay strategy (`-`, `--`).
    pub kind: DelayKind,
    /// Interval count.
    pub value: u32,
    /// Interval unit.
    pub unit: TimeUnit,
}

/// One org timestamp, e.g. `<2026-06-10 Wed 10:00-11:00 +1w>` or
/// `[2026-06-09 Tue]--[2026-06-10 Wed]`. Day names are display sugar: they
/// stay in `raw` but are not modeled.
#[derive(Debug, PartialEq, Eq)]
pub struct Timestamp {
    /// `true` for `<…>` (active), `false` for `[…]` (inactive).
    pub active: bool,
    /// Calendar date (start date for ranges).
    pub date: Date,
    /// Clock time, when present (start time for `10:00-11:00` ranges).
    pub time: Option<Time>,
    /// End date for `<…>--<…>` ranges.
    pub end_date: Option<Date>,
    /// End time, from a `10:00-11:00` range or the second half of a
    /// `<…>--<…>` range (the second half's time wins when both exist).
    pub end_time: Option<Time>,
    /// Repeater interval, when present.
    pub repeater: Option<Repeater>,
    /// Warning delay, when present.
    pub delay: Option<Delay>,
    /// The exact source text of the whole timestamp (both halves of a range).
    pub raw: String,
    /// Byte range of `raw` in the analyzed source.
    pub span: Range<usize>,
}

/// The modeled fields of a timestamp: activeness, date, time, end date, end
/// time, repeater, delay.
pub type StampFields = (bool, Date, Option<Time>, Option<Date>, Option<Time>, Option<Repeater>, Option<Delay>);

impl Timestamp {
    /// The modeled fields of this timestamp.
    pub open spec fn fields(&self) -> StampFields {
        (self.active, self.date, self.time, self.end_date, self.end_time, self.repeater, self.delay)
    }
}

impl Clone for Timestamp {
    fn clone(&self) -> (r: Self)
        ensures
            r == *self,
    {
        Timestamp {
            active: self.active,
            date: self.date,
            time: self.time,
            end_date: self.end_date,
            end_time: self.end_time,
            repeater: self.repeater,
            delay: self.delay,
            raw: self.raw.clone(),
            span: self.span.start..self.span.end,
        }
    }
}

// ---------------------------------------------------------------------------
// Token parsers (each over the byte range `t[a..b)`).
// ---------------------------------------------------------------------------

/// `YYYY-MM-DD` (split at the first two `-`; each part parsed as `i32`,
/// `u32`, `u32`) naming a day that exists.
pub open spec fn date_spec(t: Seq<u8>, a: int, b: int) -> Option<Date> {
    let p1 = find_byte(t, a, b, 45);
    let p2 = find_byte(t, p1 + 1, b, 45);
    if p1 >= b || p2 >= b {
        None
    } else {
        match (
            parse_signed_spec(t, a, p1, 0x7FFF_FFFF, 0x8000_0000),
            parse_u32_spec(t, p1 + 1, p2),
            parse_u32_spec(t, p2 + 1, b),
        ) {
            (Some(y), Some(m), Some(d)) => if valid_ymd(y, m, d) {
                Some(Date { year: y as i32, month: m as u32, day: d as u32 })
            } else {
                None
            },
            _ => None,
        }
    }
}

/// `H:MM` (split at the first `:`) naming a valid clock time.
pub open spec fn hm_spec(t: Seq<u8>, a: int, b: int) -> Option<Time> {
    let p = find_byte(t, a, b, 58);
    if p >= b {
        None
    } else {
        match (parse_u32_spec(t, a, p), parse_u32_spec(t, p + 1, b)) {
            (Some(h), Some(m)) => if h < 24 && m < 60 {
                Some(Time { hour: h as u32, minute: m as u32 })
            } else {
                None
            },
            _ => None,
        }
    }
}

/// `H:MM` or `H:MM-H:MM` (split at the first `-`): the start time and the
/// end time when it parses.
pub open spec fn time_token_spec(t: Seq<u8>, a: int, b: int) -> Option<(Time, Option<Time>)> {
    let q = find_byte(t, a, b, 45);
    if q < b {
        match hm_spec(t, a, q) {
            Some(s) => Some((s, hm_spec(t, q + 1, b))),
            None => None,
        }
    } else {
        match hm_spec(t, a, b) {
            Some(s) => Some((s, None)),
            None => None,
        }
    }
}

/// Unit letter of an interval.
pub open spec fn unit_of(c: u8) -> Option<TimeUnit> {
    if c == 104 {
        Some(TimeUnit::Hour)
    } else if c == 100 {
        Some(TimeUnit::Day)
    } else if c == 119 {
        Some(TimeUnit::Week)
    } else if c == 109 {
        Some(TimeUnit::Month)
    } else if c == 121 {
        Some(TimeUnit::Year)
    } else {
        None
    }
}

/// `1w` → `(1, Week)`: a positive `u32` count then a unit letter as the last
/// byte. A zero count is rejected.
pub open spec fn interval_spec(t: Seq<u8>, a: int, b: int) -> Option<(u32, TimeUnit)> {
    if b <= a {
        None
    } else {
        match (unit_of(t[b - 1]), parse_u32_spec(t, a, b - 1)) {
            (Some(u), Some(v)) => if v == 0 {
                None
            } else {
                Some((v as u32, u))
            },
            _ => None,
        }
    }
}

/// `+1w` / `++1m` / `.+1d` → repeater.
pub open spec fn repeater_spec(t: Seq<u8>, a: int, b: int) -> Option<Repeater> {
    let two = b - a >= 2;
    let (kind, rest) = if two && t[a] == 43 && t[a + 1] == 43 {
        (Some(RepeaterKind::CatchUp), a + 2)
    } else if two && t[a] == 46 && t[a + 1] == 43 {
        (Some(RepeaterKind::Restart), a + 2)
    } else if b - a >= 1 && t[a] == 43 {
        (Some(RepeaterKind::Cumulate), a + 1)
    } else {
        (None, a)
    };
    match (kind, interval_spec(t, rest, b)) {
        (Some(k), Some((v, u))) => Some(Repeater { kind: k, value: v, unit: u }),
        _ => None,
    }
}

/// `-2d` / `--1w` → delay.
pub open spec fn delay_spec(t: Seq<u8>, a: int, b: int) -> Option<Delay> {
    let (kind, rest) = if b - a >= 2 && t[a] == 45 && t[a + 1] == 45 {
        (Some(DelayKind::First), a + 2)
    } else if b - a >= 1 && t[a] == 45 {
        (Some(DelayKind::All), a + 1)
    } else {
        (None, a)
    };
    match (kind, interval_spec(t, rest, b)) {
        (Some(k), Some((v, u))) => Some(Delay { kind: k, value: v, unit: u }),
        _ => None,
    }
}

fn parse_date_range(t: &[u8], a: usize, b: usize) -> (r: Option<Date>)
    requires
        a <= b <= t@.len(),
    ensures
        r == date_spec(t@, a as int, b as int),
{
    let p1 = find_byte_at(t, a, b, 45);
    if p1 >= b {
        return None;
    }
    let p2 = find_byte_at(t, p1 + 1, b, 45);
    if p2 >= b {
        return None;
    }
    let y = parse_i32_range(t, a, p1);
    let m = parse_u32_range(t, p1 + 1, p2);
    let d = parse_u32_range(t, p2 + 1, b);
    proof {
        lemma_parse_bounds(t@, a as int, p1 as int, 0x7FFF_FFFF, 0x8000_0000);
        lemma_parse_bounds(t@, p1 + 1, p2 as int, 0, 0);
        lemma_parse_bounds(t@, p2 + 1, b as int, 0, 0);
    }
    match (y, m, d) {
        (Some(y), Some(m), Some(d)) => {
            let r = chrono_from_ymd(y, m, d);
            proof {
                if let Some(x) = r {
                    assert(x == Date { year: y, month: m, day: d });
                }
            }
            r
        },
        _ => None,
    }
}

fn parse_hm_range(t: &[u8], a: usize, b: usize) -> (r: Option<Time>)
    requires
        a <= b <= t@.len(),
    ensures
        r == hm_spec(t@, a as int, b as int),
{
    let p = find_byte_at(t, a, b, 58);
    if p >= b {
        return None;
    }
    let h = parse_u32_range(t, a, p);
    let m = parse_u32_range(t, p + 1, b);
    proof {
        lemma_parse_bounds(t@, a as int, p as int, 0, 0);
        lemma_parse_bounds(t@, p + 1, b as int, 0, 0);
    }
    match (h, m) {
        (Some(h), Some(m)) => {
            let r = chrono_from_hm(h, m);
            proof {
                if let Some(x) = r {
                    assert(x == Time { hour: h, minute: m });
                }
            }
            r
        },
        _ => None,
    }
}

fn parse_time_token_range(t: &[u8], a: usize, b: usize) -> (r: Option<(Time, Option<Time>)>)
    requires
        a <= b <= t@.len(),
    ensures
        r == time_token_spec(t@, a as int, b as int),
{
    let q = find_byte_at(t, a, b, 45);
    if q < b {
        match parse_hm_range(t, a, q) {
            Some(s) => Some((s, parse_hm_range(t, q + 1, b))),
            None => None,
        }
    } else {
        match parse_hm_range(t, a, b) {
            Some(s) => Some((s, None)),
            None => None,
        }
    }
}

fn parse_interval_range(t: &[u8], a: usize, b: usize) -> (r: Option<(u32, TimeUnit)>)
    requires
        a <= b <= t@.len(),
    ensures
        r == interval_spec(t@, a as int, b as int),
{
    if b <= a {
        return None;
    }
    let c = t[b - 1];
    let unit = if c == 104 {
        TimeUnit::Hour
    } else if c == 100 {
        TimeUnit::Day
    } else if c == 119 {
        TimeUnit::Week
    } else if c == 109 {
        TimeUnit::Month
    } else if c == 121 {
        TimeUnit::Year
    } else {
        return None;
    };
    proof {
        assert(unit_of(c) == Some(unit));
        lemma_parse_bounds(t@, a as int, b - 1, 0, 0);
    }
    match parse_u32_range(t, a, b - 1) {
        Some(v) => if v == 0 {
            None
        } else {
            Some((v, unit))
        },
        None => None,
    }
}

fn parse_repeater_range(t: &[u8], a: usize, b: usize) -> (r: Option<Repeater>)
    requires
        a <= b <= t@.len(),
    ensures
        r == repeater_spec(t@, a as int, b as int),
{
    let two = b - a >= 2;
    let (kind, rest) = if two && t[a] == 43 && t[a + 1] == 43 {
        (RepeaterKind::CatchUp, a + 2)
    } else if two && t[a] == 46 && t[a + 1] == 43 {
        (RepeaterKind::Restart, a + 2)
    } else if b - a >= 1 && t[a] == 43 {
        (RepeaterKind::Cumulate, a + 1)
    } else {
        return None;
    };
    match parse_interval_range(t, rest, b) {
        Some((v, u)) => Some(Repeater { kind, value: v, unit: u }),
        None => None,
    }
}

fn parse_delay_range(t: &[u8], a: usize, b: usize) -> (r: Option<Delay>)
    requires
        a <= b <= t@.len(),
    ensures
        r == delay_spec(t@, a as int, b as int),
{
    let (kind, rest) = if b - a >= 2 && t[a] == 45 && t[a + 1] == 45 {
        (DelayKind::First, a + 2)
    } else if b - a >= 1 && t[a] == 45 {
        (DelayKind::All, a + 1)
    } else {
        return None;
    };
    match parse_interval_range(t, rest, b) {
        Some((v, u)) => Some(Delay { kind, value: v, unit: u }),
        None => None,
    }
}

/// `+1w` / `++1m` / `.+1d` → [`Repeater`]; `None` for anything else
/// (including a zero count).
pub fn parse_repeater(token: &str) -> (r: Option<Repeater>)
    ensures
        r == repeater_spec(token.spec_bytes(), 0, token.spec_bytes().len() as int),
{
    let t = token.as_bytes();
    parse_repeater_range(t, 0, t.len())
}

/// `-2d` / `--1w` → [`Delay`]; `None` for anything else (including a zero
/// count).
pub fn parse_delay(token: &str) -> (r: Option<Delay>)
    ensures
        r == delay_spec(token.spec_bytes(), 0, token.spec_bytes().len() as int),
{
    let t = token.as_bytes();
    parse_delay_range(t, 0, t.len())
}

// ---------------------------------------------------------------------------
// Whole timestamps.
// ---------------------------------------------------------------------------

/// What the tokens after the date have set so far: time, end time, repeater,
/// delay.
pub type TokenState = (Option<Time>, Option<Time>, Option<Repeater>, Option<Delay>);

/// One token after the date: the first time token sets the time (and end
/// time); the first repeater and the first delay win; anything else (a day
/// name, stray text) is skipped.
pub open spec fn token_step(t: Seq<u8>, st: TokenState, tok: (int, int)) -> TokenState {
    match time_token_spec(t, tok.0, tok.1) {
        Some((start, end)) => if st.0 is None {
            (Some(start), end, st.2, st.3)
        } else {
            st
        },
        None => match repeater_spec(t, tok.0, tok.1) {
            Some(rep) => (st.0, st.1, if st.2 is Some {
                st.2
            } else {
                Some(rep)
            }, st.3),
            None => match delay_spec(t, tok.0, tok.1) {
                Some(del) => (st.0, st.1, st.2, if st.3 is Some {
                    st.3
                } else {
                    Some(del)
                }),
                None => st,
            },
        },
    }
}

/// The state after all of `toks`, in order.
pub open spec fn fold_tokens(t: Seq<u8>, toks: Seq<(int, int)>) -> TokenState
    decreases toks.len(),
{
    if toks.len() == 0 {
        (None, None, None, None)
    } else {
        token_step(t, fold_tokens(t, toks.drop_last()), toks.last())
    }
}

/// One `<…>`/`[…]` half starting at `t[s]` (no `--` continuation): its
/// fields and the number of bytes it spans (through the first closing
/// delimiter). The first whitespace token inside must be a date.
pub open spec fn parse_one_spec(t: Seq<u8>, s: int) -> Option<(StampFields, int)> {
    if s < 0 || s >= t.len() || (t[s] != 60 && t[s] != 91) {
        None
    } else {
        let close: u8 = if t[s] == 60 {
            62
        } else {
            93
        };
        let cp = find_byte(t, s, t.len() as int, close);
        let toks = ws_tokens(t, s + 1, cp);
        if cp >= t.len() || toks.len() == 0 {
            None
        } else {
            match date_spec(t, toks[0].0, toks[0].1) {
                None => None,
                Some(date) => {
                    let st = fold_tokens(t, toks.drop_first());
                    Some(((t[s] == 60, date, st.0, None, st.1, st.2, st.3), cp + 1 - s))
                },
            }
        }
    }
}

/// Fields of a `--`-joined range: the second half supplies the end date,
/// its time (if any) becomes the end time, and a repeater or delay written
/// only on the second half is promoted.
pub open spec fn merge_halves(f: StampFields, g: StampFields) -> StampFields {
    (f.0, f.1, f.2, Some(g.1), if g.2 is Some {
        g.2
    } else {
        f.4
    }, if f.5 is Some {
        f.5
    } else {
        g.5
    }, if f.6 is Some {
        f.6
    } else {
        g.6
    })
}

/// A full timestamp starting at `t[s]`, merging a `--`-joined second half
/// when that half parses (otherwise the tail is left unconsumed).
pub open spec fn parse_at_spec(t: Seq<u8>, s: int) -> Option<(StampFields, int)> {
    match parse_one_spec(t, s) {
        None => None,
        Some((f, c)) => {
            let k = s + c;
            if k + 2 <= t.len() && t[k] == 45 && t[k + 1] == 45 {
                match parse_one_spec(t, k + 2) {
                    Some((g, c2)) => Some((merge_halves(f, g), c + 2 + c2)),
                    None => Some((f, c)),
                }
            } else {
                Some((f, c))
            }
        },
    }
}

pub proof fn lemma_parse_one_len(t: Seq<u8>, s: int)
    ensures
        parse_one_spec(t, s) matches Some((f, c)) ==> 2 <= c && s + c <= t.len(),
{
    if 0 <= s < t.len() && (t[s] == 60 || t[s] == 91) {
        let close: u8 = if t[s] == 60 {
            62
        } else {
            93
        };
        lemma_find_byte(t, s, t.len() as int, close);
    }
}

pub proof fn lemma_parse_at_len(t: Seq<u8>, s: int)
    ensures
        parse_at_spec(t, s) matches Some((f, c)) ==> 2 <= c && s + c <= t.len(),
{
    lemma_parse_one_len(t, s);
    if let Some((f, c)) = parse_one_spec(t, s) {
        lemma_parse_one_len(t, s + c + 2);
    }
}

/// Exec form of [`parse_one_spec`].
pub(crate) fn scan_one(t: &[u8], s: usize) -> (r: Option<(StampFields, usize)>)
    ensures
        match parse_one_spec(t@, s as int) {
            Some((f, c)) => r == Some((f, c as usize)),
            None => r is None,
        },
        r matches Some((f, c)) ==> 2 <= c && s + c <= t@.len(),
{
    proof {
        lemma_parse_one_len(t@, s as int);
    }
    if s >= t.len() {
        return None;
    }
    let open = t[s];
    if open != 60 && open != 91 {
        return None;
    }
    let close: u8 = if open == 60 {
        62
    } else {
        93
    };
    let cp = find_byte_at(t, s, t.len(), close);
    if cp >= t.len() {
        return None;
    }
    proof {
        lemma_find_byte(t@, s as int, t@.len() as int, close);
    }
    let toks = split_ws(t, s + 1, cp);
    let ghost spec_toks = ws_tokens(t@, s + 1, cp as int);
    if toks.len() == 0 {
        return None;
    }
    proof {
        crate::semantic::todo::lemma_ws_tokens_in_range(t@, s + 1, cp as int);
    }
    let (da, db) = toks[0];
    let date = match parse_date_range(t, da, db) {
        Some(d) => d,
        None => {
            return None;
        },
    };
    let mut st: TokenState = (None, None, None, None);
    let mut k: usize = 1;
    proof {
        assert(spec_toks.subrange(1, 1) =~= seq![]);
    }
    while k < toks.len()
        invariant
            1 <= k <= toks@.len(),
            toks@.len() == spec_toks.len(),
            spec_toks == ws_tokens(t@, s + 1, cp as int),
            s + 1 <= cp <= t@.len(),
            forall|j: int|
                0 <= j < toks@.len() ==> (#[trigger] toks@[j]).0 as int == spec_toks[j].0
                    && toks@[j].1 as int == spec_toks[j].1,
            forall|j: int|
                0 <= j < spec_toks.len() ==> s + 1 <= (#[trigger] spec_toks[j]).0 <= spec_toks[j].1
                    <= cp,
            st == fold_tokens(t@, spec_toks.subrange(1, k as int)),
        decreases toks@.len() - k,
    {
        let (a, b) = toks[k];
        proof {
            let sub = spec_toks.subrange(1, k + 1);
            assert(sub.drop_last() =~= spec_toks.subrange(1, k as int));
            assert(sub.last() == (a as int, b as int));
        }
        match parse_time_token_range(t, a, b) {
            Some((start, end)) => {
                if st.0.is_none() {
                    st = (Some(start), end, st.2, st.3);
                }
            },
            None => match parse_repeater_range(t, a, b) {
                Some(rep) => {
                    if st.2.is_none() {
                        st = (st.0, st.1, Some(rep), st.3);
                    }
                },
                None => match parse_delay_range(t, a, b) {
                    Some(del) => {
                        if st.3.is_none() {
                            st = (st.0, st.1, st.2, Some(del));
                        }
                    },
                    None => {},
                },
            },
        }
        k = k + 1;
    }
    proof {
        assert(spec_toks.subrange(1, spec_toks.len() as int) =~= spec_toks.drop_first());
    }
    Some(((open == 60, date, st.0, None, st.1, st.2, st.3), cp + 1 - s))
}

/// Exec form of [`parse_at_spec`].
pub(crate) fn scan_at(t: &[u8], s: usize) -> (r: Option<(StampFields, usize)>)
    ensures
        match parse_at_spec(t@, s as int) {
            Some((f, c)) => r == Some((f, c as usize)),
            None => r is None,
        },
{
    proof {
        lemma_parse_at_len(t@, s as int);
    }
    match scan_one(t, s) {
        None => None,
        Some((f, c)) => {
            let n = t.len();
            assert(s + c <= n);
            let k = s + c;
            if t.len() >= 2 && k <= t.len() - 2 && t[k] == 45 && t[k + 1] == 45 {
                match scan_one(t, k + 2) {
                    Some((g, c2)) => {
                        proof {
                            lemma_parse_one_len(t@, k + 2);
                        }
                        let end_time = if g.2.is_some() {
                            g.2
                        } else {
                            f.4
                        };
                        let repeater = if f.5.is_some() {
                            f.5
                        } else {
                            g.5
                        };
                        let delay = if f.6.is_some() {
                            f.6
                        } else {
                            g.6
                        };
                        Some(((f.0, f.1, f.2, Some(g.1), end_time, repeater, delay), c + 2 + c2))
                    },
                    None => Some((f, c)),
                }
            } else {
                Some((f, c))
            }
        },
    }
}

/// Build the timestamp value for `t[0..c)` at source offset `offset`.
pub(crate) fn stamp_from(t: &[u8], f: StampFields, c: usize, offset: usize) -> (r: Timestamp)
    requires
        c <= t@.len(),
        offset + c <= usize::MAX,
    ensures
        r.fields() == f,
        r.raw@ == decoded(t@.subrange(0, c as int)),
        r.span.start == offset,
        r.span.end == offset + c,
{
    Timestamp {
        active: f.0,
        date: f.1,
        time: f.2,
        end_date: f.3,
        end_time: f.4,
        repeater: f.5,
        delay: f.6,
        raw: substring(t, 0, c),
        span: offset..offset + c,
    }
}

/// Parse a full timestamp at the start of `text` (which must begin with `<`
/// or `[`), merging a `--`-joined second half into `end_date`/`end_time`
/// (a repeater/delay written only on the second half is promoted). A `--`
/// tail whose second half does not parse is left unconsumed. `offset` is the
/// byte position of `text[0]` in the analyzed source.
pub fn parse_at(text: &str, offset: usize) -> (r: Option<Timestamp>)
    requires
        offset + text.spec_bytes().len() <= usize::MAX,
    ensures
        match parse_at_spec(text.spec_bytes(), 0) {
            Some((f, c)) => r matches Some(ts) && ts.fields() == f && ts.raw@ == decoded(
                text.spec_bytes().subrange(0, c),
            ) && ts.span.start == offset && ts.span.end == offset + c,
            None => r is None,
        },
{
    let t = text.as_bytes();
    match scan_at(t, 0) {
        Some((f, c)) => {
            proof {
                lemma_parse_at_len(t@, 0);
            }
            Some(stamp_from(t, f, c, offset))
        },
        None => None,
    }
}

/// Parse a single `<…>`/`[…]` half at the start of `text`; does not consume
/// a `--` range continuation. Returns the timestamp and the number of bytes
/// consumed.
pub fn parse_one(text: &str, offset: usize) -> (r: Option<(Timestamp, usize)>)
    requires
        offset + text.spec_bytes().len() <= usize::MAX,
    ensures
        match parse_one_spec(text.spec_bytes(), 0) {
            Some((f, c)) => r matches Some((ts, n)) && n == c && ts.fields() == f && ts.raw@
                == decoded(text.spec_bytes().subrange(0, c)) && ts.span.start == offset
                && ts.span.end == offset + c,
            None => r is None,
        },
{
    let t = text.as_bytes();
    match scan_one(t, 0) {
        Some((f, c)) => {
            proof {
                lemma_parse_one_len(t@, 0);
            }
            Some((stamp_from(t, f, c, offset), c))
        },
        None => None,
    }
}

// ---------------------------------------------------------------------------
// Calendar arithmetic (chrono).
// ---------------------------------------------------------------------------

/// Day number of chrono's first representable day.
pub open spec fn min_day_number() -> int {
    day_number(min_year(), 1, 1)
}

/// Day number of chrono's last representable day.
pub open spec fn max_day_number() -> int {
    day_number(max_year(), 12, 31)
}

/// `r` is what adding `n` days to `d` gives: the day `n` days later when it
/// is representable, `None` otherwise.
pub open spec fn days_after(d: Date, n: int, r: Option<Date>) -> bool {
    match r {
        Some(x) => x.wf() && x.number() == d.number() + n,
        None => !(min_day_number() <= d.number() + n <= max_day_number()),
    }
}

/// Number of days in year `y`.
pub open spec fn year_len(y: int) -> int {
    if is_leap(y) {
        366
    } else {
        365
    }
}

proof fn lemma_year_step(y: int)
    ensures
        days_before_year(y + 1) == days_before_year(y) + year_len(y),
{
    assert(y / 4 - (y - 1) / 4 == if y % 4 == 0 { 1int } else { 0int });
    assert(y / 100 - (y - 1) / 100 == if y % 100 == 0 { 1int } else { 0int });
    assert(y / 400 - (y - 1) / 400 == if y % 400 == 0 { 1int } else { 0int });
}

proof fn lemma_years_grow(a: int, b: int)
    requires
        a < b,
    ensures
        days_before_year(a + 1) <= days_before_year(b),
    decreases b - a,
{
    if a + 1 < b {
        lemma_years_grow(a, b - 1);
        lemma_year_step(b - 1);
    }
}

proof fn lemma_in_year(y: int, m: int, d: int)
    requires
        valid_ymd(y, m, d),
    ensures
        days_before_year(y) <= day_number(y, m, d) < days_before_year(y) + year_len(y),
{
}

proof fn lemma_months_grow(y: int, m1: int, m2: int)
    requires
        1 <= m1 < m2 <= 12,
    ensures
        days_before_month(y, m1) + days_in_month(y, m1) <= days_before_month(y, m2),
{
}

/// Distinct calendar days have distinct day numbers.
pub proof fn lemma_day_number_injective(a: Date, b: Date)
    requires
        a.wf(),
        b.wf(),
        a.number() == b.number(),
    ensures
        a == b,
{
    lemma_in_year(a.year as int, a.month as int, a.day as int);
    lemma_in_year(b.year as int, b.month as int, b.day as int);
    if a.year < b.year {
        lemma_year_step(a.year as int);
        lemma_years_grow(a.year as int, b.year as int);
    } else if b.year < a.year {
        lemma_year_step(b.year as int);
        lemma_years_grow(b.year as int, a.year as int);
    } else {
        if a.month < b.month {
            lemma_months_grow(a.year as int, a.month as int, b.month as int);
        } else if b.month < a.month {
            lemma_months_grow(a.year as int, b.month as int, a.month as int);
        }
    }
}

/// Every calendar day chrono can represent lies in its day-number range.
pub proof fn lemma_number_in_range(a: Date)
    requires
        a.wf(),
    ensures
        min_day_number() <= a.number() <= max_day_number(),
{
    lemma_in_year(a.year as int, a.month as int, a.day as int);
    lemma_in_year(max_year(), 12, 31);
    if min_year() < a.year {
        lemma_years_grow(min_year(), a.year as int);
        lemma_year_step(min_year());
    }
    lemma_year_step(a.year as int);
    if a.year < max_year() {
        lemma_years_grow(a.year as int, max_year());
    }
    lemma_year_step(max_year());
}

/// Adding days has one outcome.
pub proof fn lemma_days_after_unique(d: Date, n: int, r1: Option<Date>, r2: Option<Date>)
    requires
        days_after(d, n, r1),
        days_after(d, n, r2),
    ensures
        r1 == r2,
{
    match (r1, r2) {
        (Some(x), Some(y)) => lemma_day_number_injective(x, y),
        (Some(x), None) => lemma_number_in_range(x),
        (None, Some(y)) => lemma_number_in_range(y),
        (None, None) => {},
    }
}

/// Shifting a day by an interval has one outcome.
pub proof fn lemma_interval_result_unique(d: Date, n: int, unit: TimeUnit, r1: Option<Date>, r2: Option<Date>)
    requires
        interval_result(d, n, unit, r1),
        interval_result(d, n, unit, r2),
    ensures
        r1 == r2,
{
    match unit {
        TimeUnit::Day => lemma_days_after_unique(d, n, r1, r2),
        TimeUnit::Week => if fits_i64(7 * n) {
            lemma_days_after_unique(d, 7 * n, r1, r2);
        },
        _ => {},
    }
}

/// `d` moved by `k` calendar months, the day clamped to the target month's
/// length; `None` when the target year is out of range.
pub open spec fn shift_months(d: Date, k: int) -> Option<Date> {
    let total = d.year * 12 + (d.month - 1) + k;
    let y = total / 12;
    let m = total % 12 + 1;
    let dd = if d.day > days_in_month(y, m) {
        days_in_month(y, m)
    } else {
        d.day as int
    };
    if min_year() <= y <= max_year() {
        Some(Date { year: y as i32, month: m as u32, day: dd as u32 })
    } else {
        None
    }
}

/// `date.checked_add_signed(TimeDelta::try_days(n)?)`: the day `n` days
/// later, `None` exactly when that day is outside chrono's range (a count too
/// large for a `TimeDelta` is far outside it).
#[verifier::external_body]
fn chrono_add_days(d: Date, n: i64) -> (r: Option<Date>)
    requires
        d.wf(),
    ensures
        days_after(d, n as int, r),
{
    match NaiveDate::from_ymd_opt(d.year, d.month, d.day) {
        Some(nd) => match chrono::TimeDelta::try_days(n) {
            Some(delta) => nd.checked_add_signed(delta).map(
                |x: NaiveDate| Date { year: x.year(), month: x.month(), day: x.day() },
            ),
            None => None,
        },
        None => None,
    }
}

/// `date.checked_add_months(Months::new(k))`: chrono's month arithmetic
/// (day clamped to the target month), `None` when out of range.
#[verifier::external_body]
fn chrono_add_months(d: Date, k: u32) -> (r: Option<Date>)
    requires
        d.wf(),
    ensures
        r == shift_months(d, k as int),
{
    match NaiveDate::from_ymd_opt(d.year, d.month, d.day) {
        Some(nd) => nd.checked_add_months(chrono::Months::new(k)).map(
            |x: NaiveDate| Date { year: x.year(), month: x.month(), day: x.day() },
        ),
        None => None,
    }
}

/// `date.checked_sub_months(Months::new(k))`: chrono's month arithmetic
/// backwards (day clamped to the target month), `None` when out of range.
#[verifier::external_body]
fn chrono_sub_months(d: Date, k: u32) -> (r: Option<Date>)
    requires
        d.wf(),
    ensures
        r == shift_months(d, -(k as int)),
{
    match NaiveDate::from_ymd_opt(d.year, d.month, d.day) {
        Some(nd) => nd.checked_sub_months(chrono::Months::new(k)).map(
            |x: NaiveDate| Date { year: x.year(), month: x.month(), day: x.day() },
        ),
        None => None,
    }
}

/// Add `n` days (panic-free: `None` when out of range).
fn add_days(date: Date, n: i64) -> (r: Option<Date>)
    requires
        date.wf(),
    ensures
        days_after(date, n as int, r),
{
    chrono_add_days(date, n)
}

/// Chrono's month arithmetic for a signed count: counts beyond `u32` in
/// magnitude give `None`.
pub open spec fn months_after(d: Date, k: int) -> Option<Date> {
    if k < -0xFFFF_FFFF || k > 0xFFFF_FFFF {
        None
    } else {
        shift_months(d, k)
    }
}

/// Whether `v` fits in an `i64`.
pub open spec fn fits_i64(v: int) -> bool {
    -0x8000_0000_0000_0000 <= v <= 0x7FFF_FFFF_FFFF_FFFF
}

/// `r` is `d` advanced by `n` units: hours leave a calendar date unchanged,
/// weeks are seven days, years twelve months; a count whose day or month
/// total does not fit an `i64` gives `None`.
pub open spec fn interval_result(d: Date, n: int, unit: TimeUnit, r: Option<Date>) -> bool {
    match unit {
        TimeUnit::Hour => r == Some(d),
        TimeUnit::Day => days_after(d, n, r),
        TimeUnit::Week => if fits_i64(7 * n) {
            days_after(d, 7 * n, r)
        } else {
            r is None
        },
        TimeUnit::Month => r == months_after(d, n),
        TimeUnit::Year => if fits_i64(12 * n) {
            r == months_after(d, 12 * n)
        } else {
            r is None
        },
    }
}

/// Add (or subtract, for negative `months`) calendar months, clamping the
/// day-of-month to the target month's last day.
fn add_months(date: Date, months: i64) -> (r: Option<Date>)
    requires
        date.wf(),
    ensures
        r == months_after(date, months as int),
{
    if months >= 0 {
        if months > 0xFFFF_FFFF {
            return None;
        }
        chrono_add_months(date, months as u32)
    } else {
        if months < -0xFFFF_FFFF {
            return None;
        }
        let m: u32 = (0 - months) as u32;
        chrono_sub_months(date, m)
    }
}

/// Advance `date` by `signed_value` units, panic-free. `Hour` does not move
/// a calendar date.
fn add_interval(date: Date, signed_value: i64, unit: TimeUnit) -> (r: Option<Date>)
    requires
        date.wf(),
    ensures
        interval_result(date, signed_value as int, unit, r),
{
    match unit {
        TimeUnit::Hour => Some(date),
        TimeUnit::Day => add_days(date, signed_value),
        TimeUnit::Week => match signed_value.checked_mul(7) {
            Some(n) => add_days(date, n),
            None => None,
        },
        TimeUnit::Month => add_months(date, signed_value),
        TimeUnit::Year => match signed_value.checked_mul(12) {
            Some(n) => add_months(date, n),
            None => None,
        },
    }
}

/// What a date shortcut asks for.
pub enum Shortcut {
    /// `today` / `now`.
    Today,
    /// A signed count of units.
    Offset(int, TimeUnit),
    /// Not a shortcut.
    Invalid,
}

/// `today` in ASCII.
pub open spec fn today_word() -> Seq<u8> {
    seq![116u8, 111, 100, 97, 121]
}

/// `now` in ASCII.
pub open spec fn now_word() -> Seq<u8> {
    seq![110u8, 111, 119]
}

/// The shortcut written in `t` (after trimming whitespace): `today`/`now`
/// in any ASCII case, or a sign, a count of ASCII digits and an optional unit (`d`/`D`,
/// `w`/`W`, `m`, `y`/`Y`; a bare count is days).
pub open spec fn shortcut_spec(t: Seq<u8>) -> Shortcut {
    let a = crate::text::skip_ws(t, 0, t.len() as int);
    let b = crate::text::trim_end_at(t, a, t.len() as int);
    let tok = t.subrange(a, b);
    if crate::text::eq_ignore_case(tok, today_word()) || crate::text::eq_ignore_case(
        tok,
        now_word(),
    ) {
        Shortcut::Today
    } else if b <= a + 1 || (t[a] != 43 && t[a] != 45) {
        Shortcut::Invalid
    } else {
        let sign: int = if t[a] == 43 {
            1
        } else {
            -1
        };
        let last = t[b - 1];
        let unit = if last == 100 || last == 68 {
            Some(TimeUnit::Day)
        } else if last == 119 || last == 87 {
            Some(TimeUnit::Week)
        } else if last == 109 {
            Some(TimeUnit::Month)
        } else if last == 121 || last == 89 {
            Some(TimeUnit::Year)
        } else {
            None
        };
        let digits_end = if unit is Some {
            b - 1
        } else {
            b
        };
        if unit is None && !crate::text::is_digit(last) {
            Shortcut::Invalid
        } else {
            match crate::text::digits_up_to(t, a + 1, digits_end, 0x7FFF_FFFF_FFFF_FFFF) {
                Some(v) => Shortcut::Offset(
                    sign * v,
                    match unit {
                        Some(u) => u,
                        None => TimeUnit::Day,
                    },
                ),
                None => Shortcut::Invalid,
            }
        }
    }
}

/// `s` and `u` differ at most in their first byte, which is not whitespace
/// in either.
pub open spec fn same_after_sign(s: Seq<u8>, u: Seq<u8>) -> bool {
    &&& s.len() == u.len()
    &&& s.len() >= 1
    &&& (s[0] == 43 || s[0] == 45)
    &&& (u[0] == 43 || u[0] == 45)
    &&& forall|k: int| 1 <= k < s.len() ==> #[trigger] s[k] == u[k]
}

proof fn lemma_sign_ws(s: Seq<u8>, u: Seq<u8>, i: int)
    requires
        same_after_sign(s, u),
    ensures
        crate::text::ws_width(s, i) == crate::text::ws_width(u, i),
        crate::text::ws_width_before(s, i) == crate::text::ws_width_before(u, i),
{
    assert forall|k: int| i - 3 <= k <= i + 2 && 1 <= k < s.len() implies s[k] == u[k] by {}
    if 1 <= i - 1 < s.len() {
        assert(s[i - 1] == u[i - 1]);
    }
    if 1 <= i - 2 < s.len() {
        assert(s[i - 2] == u[i - 2]);
    }
    if 1 <= i - 3 < s.len() {
        assert(s[i - 3] == u[i - 3]);
    }
    if 1 <= i < s.len() {
        assert(s[i] == u[i]);
    }
    if 1 <= i + 1 < s.len() {
        assert(s[i + 1] == u[i + 1]);
    }
    if 1 <= i + 2 < s.len() {
        assert(s[i + 2] == u[i + 2]);
    }
}

proof fn lemma_sign_trim(s: Seq<u8>, u: Seq<u8>, lo: int, e: int)
    requires
        same_after_sign(s, u),
    ensures
        crate::text::trim_end_at(s, lo, e) == crate::text::trim_end_at(u, lo, e),
    decreases e - lo,
{
    lemma_sign_ws(s, u, e);
    if e > lo && crate::text::ws_width_before(s, e) > 0 && e - crate::text::ws_width_before(s, e)
        >= lo {
        lemma_sign_trim(s, u, lo, e - crate::text::ws_width_before(s, e));
    }
}

proof fn lemma_sign_digits(s: Seq<u8>, u: Seq<u8>, a: int, b: int)
    requires
        same_after_sign(s, u),
        1 <= a,
        b <= s.len(),
    ensures
        crate::text::digits_up_to(s, a, b, 0x7FFF_FFFF_FFFF_FFFF) == crate::text::digits_up_to(
            u,
            a,
            b,
            0x7FFF_FFFF_FFFF_FFFF,
        ),
    decreases b - a,
{
    lemma_sign_value(s, u, a, b);
    assert(crate::text::all_digits(s, a, b) == crate::text::all_digits(u, a, b)) by {
        if crate::text::all_digits(s, a, b) {
            assert forall|k: int| a <= k < b implies crate::text::is_digit(#[trigger] u[k]) by {
                assert(s[k] == u[k]);
            }
        }
        if crate::text::all_digits(u, a, b) {
            assert forall|k: int| a <= k < b implies crate::text::is_digit(#[trigger] s[k]) by {
                assert(s[k] == u[k]);
            }
        }
    }
}

proof fn lemma_sign_value(s: Seq<u8>, u: Seq<u8>, a: int, b: int)
    requires
        same_after_sign(s, u),
        1 <= a,
        b <= s.len(),
    ensures
        crate::text::digits_value(s, a, b) == crate::text::digits_value(u, a, b),
    decreases b - a,
{
    if b > a {
        lemma_sign_value(s, u, a, b - 1);
        assert(s[b - 1] == u[b - 1]);
    }
}

proof fn lemma_sign_shortcut(s: Seq<u8>, u: Seq<u8>)
    requires
        same_after_sign(s, u),
    ensures
        shortcut_spec(s) matches Shortcut::Offset(n, unit) ==> shortcut_spec(u) == (if s[0] == u[0] {
            Shortcut::Offset(n, unit)
        } else {
            Shortcut::Offset(-n, unit)
        }),
        shortcut_spec(s) is Invalid ==> shortcut_spec(u) is Invalid,
        !(shortcut_spec(s) is Today),
{
    let n = s.len() as int;
    lemma_sign_ws(s, u, 0);
    assert(crate::text::ws_width(s, 0) == 0);
    assert(skip_ws(s, 0, n) == 0);
    assert(skip_ws(u, 0, n) == 0);
    lemma_sign_trim(s, u, 0, n);
    crate::text::lemma_trim_end_bounds(s, 0, n);
    let b = crate::text::trim_end_at(s, 0, n);
    let ts = s.subrange(0, b);
    let tu = u.subrange(0, b);
    if b >= 1 {
        assert(ts[0] == s[0]);
        assert(tu[0] == u[0]);
        assert(!crate::text::eq_ignore_case(ts, today_word())) by {
            if ts.len() == today_word().len() {
                assert(crate::text::ascii_lower(ts[0]) != crate::text::ascii_lower(today_word()[0]));
            }
        }
        assert(!crate::text::eq_ignore_case(ts, now_word())) by {
            if ts.len() == now_word().len() {
                assert(crate::text::ascii_lower(ts[0]) != crate::text::ascii_lower(now_word()[0]));
            }
        }
        assert(!crate::text::eq_ignore_case(tu, today_word())) by {
            if tu.len() == today_word().len() {
                assert(crate::text::ascii_lower(tu[0]) != crate::text::ascii_lower(today_word()[0]));
            }
        }
        assert(!crate::text::eq_ignore_case(tu, now_word())) by {
            if tu.len() == now_word().len() {
                assert(crate::text::ascii_lower(tu[0]) != crate::text::ascii_lower(now_word()[0]));
            }
        }
    } else {
        assert(!crate::text::eq_ignore_case(ts, today_word()));
        assert(!crate::text::eq_ignore_case(ts, now_word()));
        assert(!crate::text::eq_ignore_case(tu, today_word()));
        assert(!crate::text::eq_ignore_case(tu, now_word()));
    }
    if b > 1 {
        assert(s[b - 1] == u[b - 1]);
        lemma_sign_digits(s, u, 1, b);
        lemma_sign_digits(s, u, 1, b - 1);
        let sg_s: int = if s[0] == 43 { 1 } else { -1 };
        let sg_u: int = if u[0] == 43 { 1 } else { -1 };
        assert forall|v: int| #[trigger] (sg_u * v) == (if s[0] == u[0] { sg_s * v } else { -(sg_s
            * v) }) by {
            if s[0] == u[0] {
                assert(sg_u == sg_s);
            } else {
                assert(sg_u == -sg_s);
                assert(sg_u * v == -(sg_s * v)) by (nonlinear_arith)
                    requires
                        sg_u == -sg_s,
                ;
            }
        }
    }
}

/// A date shortcut's sign is the sign of its offset, for every unit:
/// `-N<unit>` moves back exactly as far as `+N<unit>` moves forward, and a
/// text that is no shortcut with one sign is none with the other.
pub proof fn lemma_shortcut_sign_mirrors(rest: Seq<u8>)
    ensures
        shortcut_spec(seq![43u8] + rest) matches Shortcut::Offset(n, unit) ==> n >= 0
            && shortcut_spec(seq![45u8] + rest) == Shortcut::Offset(-n, unit),
        shortcut_spec(seq![45u8] + rest) matches Shortcut::Offset(n, unit) ==> n <= 0
            && shortcut_spec(seq![43u8] + rest) == Shortcut::Offset(-n, unit),
        shortcut_spec(seq![43u8] + rest) is Invalid <==> shortcut_spec(seq![45u8] + rest) is Invalid,
{
    let p = seq![43u8] + rest;
    let m = seq![45u8] + rest;
    assert(same_after_sign(p, m)) by {
        assert forall|k: int| 1 <= k < p.len() implies #[trigger] p[k] == m[k] by {
            assert(p[k] == rest[k - 1] && m[k] == rest[k - 1]);
        }
    }
    assert(same_after_sign(m, p)) by {
        assert forall|k: int| 1 <= k < m.len() implies #[trigger] m[k] == p[k] by {
            assert(p[k] == rest[k - 1] && m[k] == rest[k - 1]);
        }
    }
    lemma_sign_shortcut(p, m);
    lemma_sign_shortcut(m, p);
    let n = p.len() as int;
    crate::text::lemma_trim_end_bounds(p, 0, n);
    crate::text::lemma_digits_up_to(p, 1, crate::text::trim_end_at(p, 0, n), 0x7FFF_FFFF_FFFF_FFFF);
    crate::text::lemma_digits_up_to(p, 1, crate::text::trim_end_at(p, 0, n) - 1, 0x7FFF_FFFF_FFFF_FFFF);
    crate::text::lemma_digits_up_to(m, 1, crate::text::trim_end_at(m, 0, n), 0x7FFF_FFFF_FFFF_FFFF);
    crate::text::lemma_digits_up_to(m, 1, crate::text::trim_end_at(m, 0, n) - 1, 0x7FFF_FFFF_FFFF_FFFF);
}

fn today_bytes() -> (r: [u8; 5])
    ensures
        r@ == today_word(),
{
    let r = [116u8, 111, 100, 97, 121];
    assert(r@ =~= today_word());
    r
}

fn now_bytes() -> (r: [u8; 3])
    ensures
        r@ == now_word(),
{
    let r = [110u8, 111, 119];
    assert(r@ =~= now_word());
    r
}

/// Resolve a relative date shortcut against `today`: `today`/`now`, and
/// signed intervals `+N{d,w,m,y}` / `-N{d,w,m,y}` (a bare `+N`/`-N` counts
/// days). Returns `None` for anything else. Panic-free; month and year
/// arithmetic clamps to a valid calendar day (Jan 31 `+1m` → Feb 28/29).
pub fn resolve_date_shortcut(input: &str, today: Date) -> (r: Option<Date>)
    requires
        today.wf(),
    ensures
        match shortcut_spec(input.spec_bytes()) {
            Shortcut::Today => r == Some(today),
            Shortcut::Offset(n, unit) => interval_result(today, n, unit, r),
            Shortcut::Invalid => r is None,
        },
{
    let t = input.as_bytes();
    let n = t.len();
    let a = crate::text::skip_ws_at(t, 0, n);
    let b = crate::text::trim_end_pos(t, a, n);
    proof {
        crate::text::lemma_skip_ws_bounds(t@, 0, n as int);
        crate::text::lemma_trim_end_bounds(t@, a as int, n as int);
    }
    let tw = today_bytes();
    let nw = now_bytes();
    if crate::text::eq_ignore_case_range(t, a, b, &tw) || crate::text::eq_ignore_case_range(
        t,
        a,
        b,
        &nw,
    ) {
        return Some(today);
    }
    if b - a <= 1 || (t[a] != 43 && t[a] != 45) {
        return None;
    }
    let sign: i64 = if t[a] == 43 {
        1
    } else {
        -1
    };
    let last = t[b - 1];
    let unit = if last == 100 || last == 68 {
        TimeUnit::Day
    } else if last == 119 || last == 87 {
        TimeUnit::Week
    } else if last == 109 {
        TimeUnit::Month
    } else if last == 121 || last == 89 {
        TimeUnit::Year
    } else if 48 <= last && last <= 57 {
        TimeUnit::Day
    } else {
        return None;
    };
    let digits_end = if 48 <= last && last <= 57 {
        b
    } else {
        b - 1
    };
    let value: i64 = match crate::text::parse_digits(t, a + 1, digits_end, 0x7FFF_FFFF_FFFF_FFFF) {
        Some(v) => {
            assert(v <= 0x7FFF_FFFF_FFFF_FFFF);
            v as i64
        },
        None => {
            return None;
        },
    };
    proof {
        assert(-0x7FFF_FFFF_FFFF_FFFF <= sign * value <= 0x7FFF_FFFF_FFFF_FFFF) by (nonlinear_arith)
            requires
                sign == 1 || sign == -1,
                0 <= value <= 0x7FFF_FFFF_FFFF_FFFF,
        ;
    }
    let signed: i64 = sign * value;
    add_interval(today, signed, unit)
}

// ---------------------------------------------------------------------------
// Formatting.
// ---------------------------------------------------------------------------

/// `v` in decimal, zero-padded on the left to at least `w` digits.
pub open spec fn padded(v: nat, w: int) -> Seq<char> {
    let d = decimal(v);
    if d.len() < w {
        Seq::new((w - d.len()) as nat, |i: int| '0') + d
    } else {
        d
    }
}

/// chrono's `%Y`: years 0..=9999 as four zero-padded digits; any other
/// year with an explicit sign and at least four digits.
pub open spec fn year_text(y: int) -> Seq<char> {
    if 0 <= y <= 9999 {
        padded(y as nat, 4)
    } else if y < 0 {
        seq!['-'] + padded((-y) as nat, 4)
    } else {
        seq!['+'] + padded(y as nat, 4)
    }
}

/// chrono's English `%a` for a weekday counted from Sunday.
pub open spec fn weekday_name(w: int) -> Seq<char> {
    if w == 0 {
        seq!['S', 'u', 'n']
    } else if w == 1 {
        seq!['M', 'o', 'n']
    } else if w == 2 {
        seq!['T', 'u', 'e']
    } else if w == 3 {
        seq!['W', 'e', 'd']
    } else if w == 4 {
        seq!['T', 'h', 'u']
    } else if w == 5 {
        seq!['F', 'r', 'i']
    } else {
        seq!['S', 'a', 't']
    }
}

/// `%Y-%m-%d %a` of `d`, e.g. `2026-05-19 Tue`.
pub open spec fn date_text(d: Date) -> Seq<char> {
    year_text(d.year as int) + seq!['-'] + padded(d.month as nat, 2) + seq!['-'] + padded(
        d.day as nat,
        2,
    ) + seq![' '] + weekday_name(weekday_from_sunday(d.year as int, d.month as int, d.day as int))
}

/// `%H:%M` of `t`, e.g. `09:30`.
pub open spec fn time_text(t: Time) -> Seq<char> {
    padded(t.hour as nat, 2) + seq![':'] + padded(t.minute as nat, 2)
}

/// Single-character org unit suffix.
pub open spec fn unit_text(u: TimeUnit) -> char {
    match u {
        TimeUnit::Hour => 'h',
        TimeUnit::Day => 'd',
        TimeUnit::Week => 'w',
        TimeUnit::Month => 'm',
        TimeUnit::Year => 'y',
    }
}

/// Source cookie of a repeater, e.g. `+1w`, `++2d`, `.+1m`.
pub open spec fn repeater_text(r: Repeater) -> Seq<char> {
    let prefix = match r.kind {
        RepeaterKind::Cumulate => seq!['+'],
        RepeaterKind::CatchUp => seq!['+', '+'],
        RepeaterKind::Restart => seq!['.', '+'],
    };
    prefix + decimal(r.value as nat) + seq![unit_text(r.unit)]
}

/// Source cookie of a delay, e.g. `-2d`, `--1w`.
pub open spec fn delay_text(d: Delay) -> Seq<char> {
    let prefix = match d.kind {
        DelayKind::All => seq!['-'],
        DelayKind::First => seq!['-', '-'],
    };
    prefix + decimal(d.value as nat) + seq![unit_text(d.unit)]
}

/// `date.format("%Y-%m-%d %a")`: the year as chrono's `%Y`, zero-padded
/// month and day, and the English short weekday name.
#[verifier::external_body]
fn chrono_format_date(d: Date) -> (r: String)
    requires
        d.wf(),
    ensures
        r@ == date_text(d),
{
    match NaiveDate::from_ymd_opt(d.year, d.month, d.day) {
        Some(nd) => nd.format("%Y-%m-%d %a").to_string(),
        None => String::new(),
    }
}

/// `time.format("%H:%M")`: zero-padded hour and minute.
#[verifier::external_body]
fn chrono_format_time(t: Time) -> (r: String)
    requires
        t.wf(),
    ensures
        r@ == time_text(t),
{
    match NaiveTime::from_hms_opt(t.hour, t.minute, 0) {
        Some(nt) => nt.format("%H:%M").to_string(),
        None => String::new(),
    }
}

/// Single-char org unit suffix (`h`/`d`/`w`/`m`/`y`).
fn unit_char(unit: TimeUnit) -> (r: &'static str)
    ensures
        r@ == seq![unit_text(unit)],
{
    match unit {
        TimeUnit::Hour => {
            proof {
                reveal_strlit("h");
            }
            "h"
        },
        TimeUnit::Day => {
            proof {
                reveal_strlit("d");
            }
            "d"
        },
        TimeUnit::Week => {
            proof {
                reveal_strlit("w");
            }
            "w"
        },
        TimeUnit::Month => {
            proof {
                reveal_strlit("m");
            }
            "m"
        },
        TimeUnit::Year => {
            proof {
                reveal_strlit("y");
            }
            "y"
        },
    }
}

/// `Repeater` → source cookie, e.g. `+1w` / `++2d` / `.+1m`.
pub fn format_repeater(rep: Repeater) -> (r: String)
    ensures
        r@ == repeater_text(rep),
{
    let mut out = String::new();
    match rep.kind {
        RepeaterKind::Cumulate => {
            proof {
                reveal_strlit("+");
            }
            out.append("+");
        },
        RepeaterKind::CatchUp => {
            proof {
                reveal_strlit("++");
            }
            out.append("++");
        },
        RepeaterKind::Restart => {
            proof {
                reveal_strlit(".+");
            }
            out.append(".+");
        },
    }
    push_decimal(&mut out, rep.value as u64);
    out.append(unit_char(rep.unit));
    proof {
        let prefix = match rep.kind {
            RepeaterKind::Cumulate => seq!['+'],
            RepeaterKind::CatchUp => seq!['+', '+'],
            RepeaterKind::Restart => seq!['.', '+'],
        };
        assert(out@ =~= prefix + decimal(rep.value as nat) + seq![unit_text(rep.unit)]);
    }
    out
}

/// `Delay` → source cookie, e.g. `-2d` / `--1w`.
pub fn format_delay(del: Delay) -> (r: String)
    ensures
        r@ == delay_text(del),
{
    let mut out = String::new();
    match del.kind {
        DelayKind::All => {
            proof {
                reveal_strlit("-");
            }
            out.append("-");
        },
        DelayKind::First => {
            proof {
                reveal_strlit("--");
            }
            out.append("--");
        },
    }
    push_decimal(&mut out, del.value as u64);
    out.append(unit_char(del.unit));
    proof {
        let prefix = match del.kind {
            DelayKind::All => seq!['-'],
            DelayKind::First => seq!['-', '-'],
        };
        assert(out@ =~= prefix + decimal(del.value as nat) + seq![unit_text(del.unit)]);
    }
    out
}

/// Which planning keyword a Schedule/Deadline write targets.
#[derive(Debug, Clone, Copy, PartialEq, Eq, Structural)]
pub enum PlanningKind {
    /// `SCHEDULED:` — when work on the task should start.
    Scheduled,
    /// `DEADLINE:` — when the task is due.
    Deadline,
}

/// The keyword text of a planning kind.
pub open spec fn keyword_text(k: PlanningKind) -> Seq<char> {
    match k {
        PlanningKind::Scheduled => seq!['S', 'C', 'H', 'E', 'D', 'U', 'L', 'E', 'D'],
        PlanningKind::Deadline => seq!['D', 'E', 'A', 'D', 'L', 'I', 'N', 'E'],
    }
}

impl PlanningKind {
    /// The org planning keyword written before the timestamp (`SCHEDULED` /
    /// `DEADLINE`), without the trailing colon.
    pub fn keyword(self) -> (r: &'static str)
        ensures
            r@ == keyword_text(self),
    {
        match self {
            PlanningKind::Scheduled => {
                proof {
                    reveal_strlit("SCHEDULED");
                }
                "SCHEDULED"
            },
            PlanningKind::Deadline => {
                proof {
                    reveal_strlit("DEADLINE");
                }
                "DEADLINE"
            },
        }
    }
}

/// The concrete date (and optional clock time) committed for a planning
/// timestamp. Planning stamps are always active `<…>`.
#[derive(Debug, Clone, Copy, PartialEq, Eq, Structural)]
pub struct PlannedStamp {
    /// Calendar date to write.
    pub date: Date,
    /// Clock time to write (`HH:MM`), when supplied.
    pub time: Option<Time>,
}

impl PlannedStamp {
    /// Date and time are valid.
    pub open spec fn wf(self) -> bool {
        self.date.wf() && (self.time matches Some(t) ==> t.wf())
    }
}

/// Active org source of a planning timestamp, e.g.
/// `<2026-05-19 Tue 14:00 +1w -2d>`.
pub open spec fn planning_text(stamp: PlannedStamp, rep: Option<Repeater>, del: Option<Delay>) -> Seq<char> {
    seq!['<'] + date_text(stamp.date) + match stamp.time {
        Some(t) => seq![' '] + time_text(t),
        None => seq![],
    } + match rep {
        Some(x) => seq![' '] + repeater_text(x),
        None => seq![],
    } + match del {
        Some(x) => seq![' '] + delay_text(x),
        None => seq![],
    } + seq!['>']
}

/// Format a planning timestamp as active org source, e.g.
/// `<2026-05-19 Tue 14:00 +1w>`. The weekday is computed from the date with
/// chrono's locale-independent English `%a`. Carried-over repeater and delay
/// cookies are re-emitted after the time.
pub fn format_planning_timestamp(
    stamp: PlannedStamp,
    repeater: Option<Repeater>,
    delay: Option<Delay>,
) -> (r: String)
    requires
        stamp.wf(),
    ensures
        r@ == planning_text(stamp, repeater, delay),
{
    proof {
        reveal_strlit("<");
        reveal_strlit(" ");
        reveal_strlit(">");
    }
    let mut out = String::new();
    out.append("<");
    let ds = chrono_format_date(stamp.date);
    out.append(ds.as_str());
    let ghost s1 = out@;
    match stamp.time {
        Some(t) => {
            out.append(" ");
            let ts = chrono_format_time(t);
            out.append(ts.as_str());
        },
        None => {},
    }
    let ghost s2 = out@;
    match repeater {
        Some(rep) => {
            out.append(" ");
            let x = format_repeater(rep);
            out.append(x.as_str());
        },
        None => {},
    }
    let ghost s3 = out@;
    match delay {
        Some(del) => {
            out.append(" ");
            let x = format_delay(del);
            out.append(x.as_str());
        },
        None => {},
    }
    out.append(">");
    proof {
        let tpart = match stamp.time {
            Some(t) => seq![' '] + time_text(t),
            None => seq![],
        };
        let rpart = match repeater {
            Some(x) => seq![' '] + repeater_text(x),
            None => seq![],
        };
        let dpart = match delay {
            Some(x) => seq![' '] + delay_text(x),
            None => seq![],
        };
        assert(s1 =~= seq!['<'] + date_text(stamp.date));
        assert(s2 =~= s1 + tpart);
        assert(s3 =~= s2 + rpart);
        assert(out@ =~= s3 + dpart + seq!['>']);
    }
    out
}

// ---------------------------------------------------------------------------
// Planning-line writer.
// ---------------------------------------------------------------------------

/// A minimal, byte-faithful edit: replace `from..to` with `insert`.
/// Everything outside `from..to` stays byte-identical. A no-op is
/// `from == to` with an empty `insert`.
#[derive(Debug, PartialEq, Eq)]
pub struct PlanningEdit {
    /// Byte offset where the replaced region begins.
    pub from: usize,
    /// Byte offset where the replaced region ends.
    pub to: usize,
    /// Replacement text.
    pub insert: String,
}

impl Clone for PlanningEdit {
    fn clone(&self) -> (r: Self)
        ensures
            r == *self,
    {
        PlanningEdit { from: self.from, to: self.to, insert: self.insert.clone() }
    }
}

/// `SCHEDULED` in ASCII.
pub open spec fn scheduled_word() -> Seq<u8> {
    seq![83u8, 67, 72, 69, 68, 85, 76, 69, 68]
}

/// `DEADLINE` in ASCII.
pub open spec fn deadline_word() -> Seq<u8> {
    seq![68u8, 69, 65, 68, 76, 73, 78, 69]
}

/// `CLOSED` in ASCII.
pub open spec fn closed_word() -> Seq<u8> {
    seq![67u8, 76, 79, 83, 69, 68]
}

/// The keyword of `kind` in ASCII.
pub open spec fn keyword_bytes_of(kind: PlanningKind) -> Seq<u8> {
    match kind {
        PlanningKind::Scheduled => scheduled_word(),
        PlanningKind::Deadline => deadline_word(),
    }
}

fn keyword_bytes(kind: PlanningKind) -> (r: Vec<u8>)
    ensures
        r@ == keyword_bytes_of(kind),
{
    match kind {
        PlanningKind::Scheduled => {
            let r = vec![83u8, 67, 72, 69, 68, 85, 76, 69, 68];
            assert(r@ =~= scheduled_word());
            r
        },
        PlanningKind::Deadline => {
            let r = vec![68u8, 69, 65, 68, 76, 73, 78, 69];
            assert(r@ =~= deadline_word());
            r
        },
    }
}

/// `t[i..i + w.len() + 1)` is `w` followed by a colon, inside `[i, hi)`.
pub open spec fn word_colon_at(t: Seq<u8>, i: int, hi: int, w: Seq<u8>) -> bool {
    i + w.len() + 1 <= hi && matches_at(t, i, w) && t[i + w.len()] == 58
}

/// `t[lo..hi)` is a planning line: after leading whitespace it starts with
/// `SCHEDULED:`, `DEADLINE:` or `CLOSED:`.
pub open spec fn planning_line_spec(t: Seq<u8>, lo: int, hi: int) -> bool {
    let h = skip_ws(t, lo, hi);
    word_colon_at(t, h, hi, scheduled_word()) || word_colon_at(t, h, hi, deadline_word())
        || word_colon_at(t, h, hi, closed_word())
}

fn word_colon_at_exec(t: &[u8], i: usize, hi: usize, w: &[u8]) -> (r: bool)
    requires
        i <= hi <= t@.len(),
    ensures
        r == word_colon_at(t@, i as int, hi as int, w@),
{
    if hi - i <= w.len() {
        return false;
    }
    bytes_match_at(t, i, w) && t[i + w.len()] == 58
}

/// True when `t[lo..hi)` is a planning line.
fn is_planning_line(t: &[u8], lo: usize, hi: usize) -> (r: bool)
    requires
        lo <= hi <= t@.len(),
    ensures
        r == planning_line_spec(t@, lo as int, hi as int),
{
    let h = skip_ws_at(t, lo, hi);
    proof {
        crate::text::lemma_skip_ws_bounds(t@, lo as int, hi as int);
    }
    let sw = keyword_bytes(PlanningKind::Scheduled);
    let dw = keyword_bytes(PlanningKind::Deadline);
    let cw = vec![67u8, 76, 79, 83, 69, 68];
    assert(cw@ =~= closed_word());
    word_colon_at_exec(t, h, hi, sw.as_slice()) || word_colon_at_exec(t, h, hi, dw.as_slice())
        || word_colon_at_exec(t, h, hi, cw.as_slice())
}

/// `"\r\n"` when the newline at `nl` is preceded by `\r`, else `"\n"`.
pub open spec fn newline_text(t: Seq<u8>, nl: int) -> Seq<char> {
    if 0 < nl < t.len() && t[nl] == 10 && t[nl - 1] == 13 {
        seq!['\r', '\n']
    } else {
        seq!['\n']
    }
}

/// Newline style terminating the line whose `\n` sits at `nl_index`.
fn newline_style(t: &[u8], nl_index: usize) -> (r: &'static str)
    ensures
        r@ == newline_text(t@, nl_index as int),
{
    if nl_index < t.len() && t[nl_index] == 10 && nl_index > 0 && t[nl_index - 1] == 13 {
        proof {
            reveal_strlit("\r\n");
        }
        "\r\n"
    } else {
        proof {
            reveal_strlit("\n");
        }
        "\n"
    }
}

/// First `k` in `[i, hi)` where `w` occurs entirely inside `[k, hi)`, or
/// `hi` when none.
pub open spec fn find_word(t: Seq<u8>, i: int, hi: int, w: Seq<u8>) -> int
    decreases hi - i,
{
    if i < 0 || i >= hi || i + w.len() > hi {
        hi
    } else if matches_at(t, i, w) {
        i
    } else {
        find_word(t, i + 1, hi, w)
    }
}

pub proof fn lemma_find_word(t: Seq<u8>, i: int, hi: int, w: Seq<u8>)
    requires
        0 <= i,
    ensures
        find_word(t, i, hi, w) == hi || (i <= find_word(t, i, hi, w) && find_word(t, i, hi, w)
            + w.len() <= hi && matches_at(t, find_word(t, i, hi, w), w)),
    decreases hi - i,
{
    if i < hi && i + w.len() <= hi && !matches_at(t, i, w) {
        lemma_find_word(t, i + 1, hi, w);
    }
}

/// Start of the first `w` followed by `:` in `t[i..hi)`, searching on past
/// each occurrence that lacks the colon.
pub open spec fn keyword_search(t: Seq<u8>, i: int, hi: int, w: Seq<u8>) -> Option<int>
    decreases hi - i,
{
    let k = find_word(t, i, hi, w);
    if w.len() == 0 || i < 0 || k >= hi || k < i {
        None
    } else if k + w.len() < hi && t[k + w.len()] == 58 {
        Some(k)
    } else {
        proof {
            lemma_find_word(t, i, hi, w);
        }
        keyword_search(t, k + w.len(), hi, w)
    }
}

/// First offset at or after `i` (below `hi`) that is not a space or tab.
pub open spec fn skip_blanks(t: Seq<u8>, i: int, hi: int) -> int
    decreases hi - i,
{
    if i < hi && (t[i] == 32 || t[i] == 9) {
        skip_blanks(t, i + 1, hi)
    } else {
        i
    }
}

/// Where a `KEYWORD:` entry sits in `t[lo..hi)`: the keyword's start, and
/// the following `<…>`/`[…]` timestamp when present and parseable (its
/// start, end, repeater and delay).
pub open spec fn entry_spec(t: Seq<u8>, lo: int, hi: int, w: Seq<u8>) -> Option<
    (int, Option<(int, int, Option<Repeater>, Option<Delay>)>),
> {
    match keyword_search(t, lo, hi, w) {
        None => None,
        Some(k) => {
            let ts = skip_blanks(t, k + w.len() + 1, hi);
            let stamp = if ts < hi && (t[ts] == 60 || t[ts] == 91) {
                match parse_at_spec(t.subrange(ts, hi), 0) {
                    Some((f, c)) => Some((ts, ts + c, f.5, f.6)),
                    None => None,
                }
            } else {
                None
            };
            Some((k, stamp))
        },
    }
}

/// Where one `KEYWORD: <timestamp>` planning entry sits inside a line.
struct EntryLoc {
    /// Byte offset of the keyword's first character.
    kw_start: usize,
    /// The timestamp after `KEYWORD:`, when present and parseable:
    /// `(ts_start, ts_end, repeater, delay)`.
    timestamp: Option<(usize, usize, Option<Repeater>, Option<Delay>)>,
}

fn find_word_at(t: &[u8], i: usize, hi: usize, w: &[u8]) -> (r: usize)
    requires
        i <= hi <= t@.len(),
    ensures
        r == find_word(t@, i as int, hi as int, w@),
        i <= r <= hi,
{
    let mut k = i;
    while k < hi && w.len() <= hi - k
        invariant
            i <= k <= hi <= t@.len(),
            find_word(t@, i as int, hi as int, w@) == find_word(t@, k as int, hi as int, w@),
        decreases hi - k,
    {
        if bytes_match_at(t, k, w) {
            return k;
        }
        k = k + 1;
    }
    hi
}

fn skip_blanks_at(t: &[u8], i: usize, hi: usize) -> (r: usize)
    requires
        i <= hi <= t@.len(),
    ensures
        r == skip_blanks(t@, i as int, hi as int),
        i <= r <= hi,
{
    let mut k = i;
    while k < hi && (t[k] == 32 || t[k] == 9)
        invariant
            i <= k <= hi <= t@.len(),
            skip_blanks(t@, i as int, hi as int) == skip_blanks(t@, k as int, hi as int),
        decreases hi - k,
    {
        k = k + 1;
    }
    k
}

/// Locate the `keyword` planning entry within `t[line_start..line_end)`.
fn find_entry(t: &[u8], line_start: usize, line_end: usize, keyword: &[u8]) -> (r: Option<
    EntryLoc,
>)
    requires
        line_start <= line_end <= t@.len(),
    ensures
        match entry_spec(t@, line_start as int, line_end as int, keyword@) {
            None => r is None,
            Some((k, st)) => r matches Some(e) && e.kw_start == k && match st {
                None => e.timestamp is None,
                Some((a, b, rep, del)) => e.timestamp == Some(
                    (a as usize, b as usize, rep, del),
                ) && line_start <= a <= b <= line_end,
            },
        },
        r matches Some(e) ==> line_start <= e.kw_start && e.kw_start + keyword@.len() + 1
            <= line_end,
        r matches Some(e) ==> (e.timestamp matches Some((a, b, rep, del)) ==> e.kw_start
            + keyword@.len() + 1 <= a <= b <= line_end),
{
    if keyword.len() == 0 {
        return None;
    }
    let mut from = line_start;
    while from <= line_end
        invariant
            line_start <= from,
            line_end <= t@.len(),
            keyword@.len() > 0,
            keyword_search(t@, line_start as int, line_end as int, keyword@) == keyword_search(
                t@,
                from as int,
                line_end as int,
                keyword@,
            ),
        decreases line_end + 1 - from,
    {
        let k = find_word_at(t, from, line_end, keyword);
        proof {
            lemma_find_word(t@, from as int, line_end as int, keyword@);
        }
        if k >= line_end {
            return None;
        }
        let after_kw = k + keyword.len();
        if after_kw < line_end && t[after_kw] == 58 {
            let ts = skip_blanks_at(t, after_kw + 1, line_end);
            let timestamp = if ts < line_end && (t[ts] == 60 || t[ts] == 91) {
                let sub = vstd::slice::slice_subrange(t, ts, line_end);
                proof {
                    lemma_parse_at_len(sub@, 0);
                }
                match scan_at(sub, 0) {
                    Some((f, c)) => Some((ts, ts + c, f.5, f.6)),
                    None => None,
                }
            } else {
                None
            };
            return Some(EntryLoc { kw_start: k, timestamp });
        }
        from = after_kw;
    }
    None
}

/// First offset at or before `i` (down to `lo`) not preceded by a space or
/// tab.
pub open spec fn back_blanks(t: Seq<u8>, lo: int, i: int) -> int
    decreases i - lo,
{
    if i > lo && (t[i - 1] == 32 || t[i - 1] == 9) {
        back_blanks(t, lo, i - 1)
    } else {
        i
    }
}

/// The edit that deletes the entry `t[kw_start..entry_end)` from the
/// planning line `t[lo..hi)`, swallowing the blanks before it (or, when it
/// opens the line, after it); when nothing but whitespace would remain, the
/// whole line and its newline go.
pub open spec fn remove_spec(t: Seq<u8>, lo: int, hi: int, kw_start: int, entry_end: int) -> (
    int,
    int,
    Seq<char>,
) {
    let rstart = back_blanks(t, lo, kw_start);
    let rend = if rstart == lo {
        skip_blanks(t, entry_end, hi)
    } else {
        entry_end
    };
    let rest = t.subrange(lo, rstart) + t.subrange(rend, hi);
    if skip_ws(rest, 0, rest.len() as int) >= rest.len() {
        (lo, if hi + 1 <= t.len() {
            hi + 1
        } else {
            t.len() as int
        }, seq![])
    } else {
        (rstart, rend, seq![])
    }
}

fn back_blanks_at(t: &[u8], lo: usize, i: usize) -> (r: usize)
    requires
        lo <= i <= t@.len(),
    ensures
        r == back_blanks(t@, lo as int, i as int),
        lo <= r <= i,
{
    let mut k = i;
    while k > lo && (t[k - 1] == 32 || t[k - 1] == 9)
        invariant
            lo <= k <= i <= t@.len(),
            back_blanks(t@, lo as int, i as int) == back_blanks(t@, lo as int, k as int),
        decreases k - lo,
    {
        k = k - 1;
    }
    k
}

/// `t[a..b) + t[c..d)` as a new byte vector.
fn concat_ranges(t: &[u8], a: usize, b: usize, c: usize, d: usize) -> (r: Vec<u8>)
    requires
        a <= b <= t@.len(),
        c <= d <= t@.len(),
    ensures
        r@ == t@.subrange(a as int, b as int) + t@.subrange(c as int, d as int),
{
    let mut out: Vec<u8> = Vec::new();
    let mut k = a;
    while k < b
        invariant
            a <= k <= b <= t@.len(),
            out@ == t@.subrange(a as int, k as int),
        decreases b - k,
    {
        out.push(t[k]);
        proof {
            assert(out@ =~= t@.subrange(a as int, k + 1));
        }
        k = k + 1;
    }
    let ghost left = out@;
    let mut j = c;
    while j < d
        invariant
            c <= j <= d <= t@.len(),
            left == t@.subrange(a as int, b as int),
            out@ == left + t@.subrange(c as int, j as int),
        decreases d - j,
    {
        out.push(t[j]);
        proof {
            assert(out@ =~= left + t@.subrange(c as int, j + 1));
        }
        j = j + 1;
    }
    out
}

/// Delete the entry spanning `[kw_start, entry_end)` on the planning line
/// `[line_start, line_end)`, swallowing one run of separating blanks; if the
/// line is then blank, delete the whole line (with its newline).
fn remove_entry(
    t: &[u8],
    line_start: usize,
    line_end: usize,
    kw_start: usize,
    entry_end: usize,
) -> (r: PlanningEdit)
    requires
        line_start <= kw_start <= entry_end <= line_end <= t@.len(),
    ensures
        r.from == remove_spec(t@, line_start as int, line_end as int, kw_start as int, entry_end as int).0,
        r.to == remove_spec(t@, line_start as int, line_end as int, kw_start as int, entry_end as int).1,
        r.insert@ == remove_spec(t@, line_start as int, line_end as int, kw_start as int, entry_end as int).2,
        line_start <= r.from <= r.to,
        r.to <= line_end + 1,
        r.to <= t@.len(),
{
    let rstart = back_blanks_at(t, line_start, kw_start);
    let rend = if rstart == line_start {
        skip_blanks_at(t, entry_end, line_end)
    } else {
        entry_end
    };
    let rest = concat_ranges(t, line_start, rstart, rend, line_end);
    let m = skip_ws_at(rest.as_slice(), 0, rest.len());
    if m >= rest.len() {
        let del_end = if line_end < t.len() {
            line_end + 1
        } else {
            t.len()
        };
        PlanningEdit { from: line_start, to: del_end, insert: String::new() }
    } else {
        PlanningEdit { from: rstart, to: rend, insert: String::new() }
    }
}

/// A zero-width no-op edit at `at`.
fn noop(at: usize) -> (r: PlanningEdit)
    ensures
        r.from == at && r.to == at && r.insert@ == Seq::<char>::empty(),
{
    PlanningEdit { from: at, to: at, insert: String::new() }
}

/// End (the `\n` or the end of input) of the line containing `offset`,
/// the offset first clamped to the input.
pub open spec fn headline_line_end(t: Seq<u8>, offset: int) -> int {
    let off = if offset < t.len() {
        offset
    } else {
        t.len() as int
    };
    let start = crate::text::rfind_byte(t, 0, off, 10) + 1;
    find_byte(t, start, t.len() as int, 10)
}

/// Start of the line after the headline line (the end of input when there
/// is none).
pub open spec fn planning_line_start(t: Seq<u8>, offset: int) -> int {
    let e = headline_line_end(t, offset);
    if e + 1 <= t.len() {
        e + 1
    } else {
        t.len() as int
    }
}

/// End of the line after the headline line.
pub open spec fn planning_line_end(t: Seq<u8>, offset: int) -> int {
    find_byte(t, planning_line_start(t, offset), t.len() as int, 10)
}

/// `KEYWORD: ` as text.
pub open spec fn keyword_prefix(kind: PlanningKind) -> Seq<char> {
    keyword_text(kind) + seq![':', ' ']
}

/// The edit on an existing planning line `t[lo..hi)`.
pub open spec fn line_edit_spec(
    t: Seq<u8>,
    lo: int,
    hi: int,
    kind: PlanningKind,
    new: Option<PlannedStamp>,
) -> (int, int, Seq<char>) {
    let w = keyword_bytes_of(kind);
    match entry_spec(t, lo, hi, w) {
        Some((kw_start, Some((ts_start, ts_end, rep, del)))) => match new {
            Some(stamp) => (ts_start, ts_end, planning_text(stamp, rep, del)),
            None => remove_spec(t, lo, hi, kw_start, ts_end),
        },
        Some((kw_start, None)) => {
            let colon_end = kw_start + w.len() + 1;
            match new {
                Some(stamp) => (colon_end, colon_end, seq![' '] + planning_text(stamp, None, None)),
                None => remove_spec(t, lo, hi, kw_start, colon_end),
            }
        },
        None => match new {
            Some(stamp) => (hi, hi, seq![' '] + keyword_prefix(kind) + planning_text(stamp, None, None)),
            None => (hi, hi, seq![]),
        },
    }
}

/// The edit when no planning line follows the headline line ending at
/// `hle`; `lo` is where the next line starts.
pub open spec fn new_line_spec(
    t: Seq<u8>,
    hle: int,
    lo: int,
    kind: PlanningKind,
    new: Option<PlannedStamp>,
) -> (int, int, Seq<char>) {
    match new {
        Some(stamp) => if hle < t.len() {
            (lo, lo, keyword_prefix(kind) + planning_text(stamp, None, None) + newline_text(t, hle))
        } else {
            (t.len() as int, t.len() as int, newline_text(t, hle) + keyword_prefix(kind)
                + planning_text(stamp, None, None))
        },
        None => (lo, lo, seq![]),
    }
}

/// The edit [`set_planning_timestamp`] computes, as `(from, to, insert)`.
pub open spec fn planning_edit_spec(
    t: Seq<u8>,
    offset: int,
    kind: PlanningKind,
    new: Option<PlannedStamp>,
) -> (int, int, Seq<char>) {
    let lo = planning_line_start(t, offset);
    let hi = planning_line_end(t, offset);
    if planning_line_spec(t, lo, hi) {
        line_edit_spec(t, lo, hi, kind, new)
    } else {
        new_line_spec(t, headline_line_end(t, offset), lo, kind, new)
    }
}

/// The edit on the existing planning line `t[lo..hi)`.
fn edit_existing_line(t: &[u8], lo: usize, hi: usize, kind: PlanningKind, new: Option<PlannedStamp>) -> (r: PlanningEdit)
    requires
        lo <= hi <= t@.len(),
        new matches Some(s) ==> s.wf(),
    ensures
        r.from == line_edit_spec(t@, lo as int, hi as int, kind, new).0,
        r.to == line_edit_spec(t@, lo as int, hi as int, kind, new).1,
        r.insert@ == line_edit_spec(t@, lo as int, hi as int, kind, new).2,
        lo <= r.from <= r.to <= hi + 1,
        r.to <= t@.len(),
        new is None ==> r.insert@ == Seq::<char>::empty(),
{
    let w = keyword_bytes(kind);
    let keyword = kind.keyword();
    proof {
        reveal_strlit(": ");
        reveal_strlit(" ");
    }
    match find_entry(t, lo, hi, w.as_slice()) {
        Some(EntryLoc { kw_start, timestamp: Some((ts_start, ts_end, repeater, delay)) }) => {
            match new {
                Some(stamp) => PlanningEdit {
                    from: ts_start,
                    to: ts_end,
                    insert: format_planning_timestamp(stamp, repeater, delay),
                },
                None => remove_entry(t, lo, hi, kw_start, ts_end),
            }
        },
        Some(EntryLoc { kw_start, timestamp: None }) => {
            let colon_end = kw_start + w.len() + 1;
            match new {
                Some(stamp) => {
                    let mut insert = String::new();
                    insert.append(" ");
                    let ts = format_planning_timestamp(stamp, None, None);
                    insert.append(ts.as_str());
                    PlanningEdit { from: colon_end, to: colon_end, insert }
                },
                None => remove_entry(t, lo, hi, kw_start, colon_end),
            }
        },
        None => match new {
            Some(stamp) => {
                let mut insert = String::new();
                insert.append(" ");
                insert.append(keyword);
                insert.append(": ");
                let ts = format_planning_timestamp(stamp, None, None);
                insert.append(ts.as_str());
                proof {
                    assert(insert@ =~= seq![' '] + keyword_prefix(kind) + planning_text(
                        stamp,
                        None,
                        None,
                    ));
                }
                PlanningEdit { from: hi, to: hi, insert }
            },
            None => noop(hi),
        },
    }
}

/// The edit creating a planning line after the headline line ending at
/// `hle` (no planning line follows it).
fn create_line(t: &[u8], hle: usize, lo: usize, kind: PlanningKind, new: Option<PlannedStamp>) -> (r: PlanningEdit)
    requires
        hle <= lo <= t@.len(),
        hle < t@.len() ==> lo == hle + 1,
        hle >= t@.len() ==> lo == t@.len(),
        new matches Some(s) ==> s.wf(),
    ensures
        r.from == new_line_spec(t@, hle as int, lo as int, kind, new).0,
        r.to == new_line_spec(t@, hle as int, lo as int, kind, new).1,
        r.insert@ == new_line_spec(t@, hle as int, lo as int, kind, new).2,
        hle <= r.from <= r.to <= lo,
        new is None ==> r.insert@ == Seq::<char>::empty(),
{
    let keyword = kind.keyword();
    proof {
        reveal_strlit(": ");
    }
    match new {
        Some(stamp) => {
            let ts = format_planning_timestamp(stamp, None, None);
            let nl = newline_style(t, hle);
            let mut insert = String::new();
            if hle < t.len() {
                insert.append(keyword);
                insert.append(": ");
                insert.append(ts.as_str());
                insert.append(nl);
                proof {
                    assert(insert@ =~= keyword_prefix(kind) + planning_text(stamp, None, None)
                        + newline_text(t@, hle as int));
                }
                PlanningEdit { from: lo, to: lo, insert }
            } else {
                insert.append(nl);
                insert.append(keyword);
                insert.append(": ");
                insert.append(ts.as_str());
                proof {
                    assert(insert@ =~= newline_text(t@, hle as int) + keyword_prefix(kind)
                        + planning_text(stamp, None, None));
                }
                PlanningEdit { from: t.len(), to: t.len(), insert }
            }
        },
        None => noop(lo),
    }
}

/// Compute the byte-faithful [`PlanningEdit`] that sets (`new = Some`) or
/// removes (`new = None`) the `kind` planning timestamp on the headline whose
/// line contains `headline_offset`:
/// - replace an existing same-kind stamp (only the `<…>` bytes change; its
///   repeater/delay cookie is carried onto the new stamp);
/// - add ` KEYWORD: <…>` at the end of an existing planning line;
/// - create a planning line when none follows the headline;
/// - remove the entry (and its separating blanks), or the whole line when
///   nothing else remains on it; removing an absent entry is a no-op.
///
/// The edited region never reaches before the end of the headline line or
/// past the planning line's newline, so every other byte of `source` stays
/// as it was. Panic-free; an out-of-range `headline_offset` is clamped.
pub fn set_planning_timestamp(
    source: &str,
    headline_offset: usize,
    kind: PlanningKind,
    new: Option<PlannedStamp>,
) -> (r: PlanningEdit)
    requires
        new matches Some(s) ==> s.wf(),
    ensures
        r.from == planning_edit_spec(source.spec_bytes(), headline_offset as int, kind, new).0,
        r.to == planning_edit_spec(source.spec_bytes(), headline_offset as int, kind, new).1,
        r.insert@ == planning_edit_spec(source.spec_bytes(), headline_offset as int, kind, new).2,
        headline_line_end(source.spec_bytes(), headline_offset as int) <= r.from <= r.to,
        r.to <= planning_line_end(source.spec_bytes(), headline_offset as int) + 1,
        r.to <= source.spec_bytes().len(),
        new is None ==> r.insert@ == Seq::<char>::empty(),
{
    let t = source.as_bytes();
    let n = t.len();
    let offset = if headline_offset < n {
        headline_offset
    } else {
        n
    };
    proof {
        crate::text::lemma_rfind_byte(t@, 0, offset as int, 10);
    }
    let hls = match crate::text::rfind_byte_at(t, 0, offset, 10) {
        Some(i) => i + 1,
        None => 0,
    };
    let hle = find_byte_at(t, hls, n, 10);
    let after = if hle < n {
        hle + 1
    } else {
        n
    };
    let ple = find_byte_at(t, after, n, 10);
    proof {
        lemma_find_byte(t@, hls as int, n as int, 10);
        lemma_find_byte(t@, after as int, n as int, 10);
    }
    if is_planning_line(t, after, ple) {
        edit_existing_line(t, after, ple, kind, new)
    } else {
        create_line(t, hle, after, kind, new)
    }
}

// ---------------------------------------------------------------------------
// Planning edits fall on character boundaries.
// ---------------------------------------------------------------------------

/// `i` is an end of `t`, or sits on or right after an ASCII byte.
pub open spec fn ascii_anchored(t: Seq<u8>, i: int) -> bool {
    &&& 0 <= i <= t.len()
    &&& (i == 0 || i == t.len() || t[i] < 128 || t[i - 1] < 128)
}

/// In valid UTF-8, an offset anchored at an ASCII byte is a character
/// boundary.
pub proof fn lemma_anchored_boundary(t: Seq<u8>, i: int)
    requires
        vstd::utf8::valid_utf8(t),
        ascii_anchored(t, i),
    ensures
        vstd::utf8::is_char_boundary(t, i),
{
    vstd::utf8::is_char_boundary_start_end_of_seq(t);
    if 0 < i < t.len() {
        vstd::utf8::is_char_boundary_iff_not_is_continuation_byte(t, i);
        if !(t[i] < 128) {
            vstd::utf8::is_char_boundary_iff_not_is_continuation_byte(t, i - 1);
            vstd::utf8::valid_utf8_split(t, i - 1);
            let u = t.subrange(i - 1, t.len() as int);
            assert(u[0] == t[i - 1] && u[1] == t[i]);
            assert(vstd::utf8::is_char_boundary(u, 1)) by {
                reveal_with_fuel(vstd::utf8::is_char_boundary, 2);
            }
            vstd::utf8::is_char_boundary_iff_not_is_continuation_byte(u, 1);
        }
    }
}

proof fn lemma_back_blanks_anchor(t: Seq<u8>, lo: int, i: int)
    requires
        lo <= i,
    ensures
        lo <= back_blanks(t, lo, i) <= i,
        back_blanks(t, lo, i) < i ==> t[back_blanks(t, lo, i)] == 32 || t[back_blanks(t, lo, i)]
            == 9,
    decreases i - lo,
{
    if i > lo && (t[i - 1] == 32 || t[i - 1] == 9) {
        lemma_back_blanks_anchor(t, lo, i - 1);
    }
}

proof fn lemma_skip_blanks_anchor(t: Seq<u8>, i: int, hi: int)
    requires
        i <= hi,
    ensures
        i <= skip_blanks(t, i, hi) <= hi,
        skip_blanks(t, i, hi) > i ==> t[skip_blanks(t, i, hi) - 1] == 32 || t[skip_blanks(t, i, hi)
            - 1] == 9,
    decreases hi - i,
{
    if i < hi && (t[i] == 32 || t[i] == 9) {
        lemma_skip_blanks_anchor(t, i + 1, hi);
    }
}

proof fn lemma_keyword_search(t: Seq<u8>, i: int, hi: int, w: Seq<u8>)
    requires
        0 <= i,
        hi <= t.len(),
    ensures
        keyword_search(t, i, hi, w) matches Some(k) ==> i <= k && k + w.len() < hi && matches_at(
            t,
            k,
            w,
        ) && t[k + w.len()] == 58,
    decreases hi - i,
{
    lemma_find_word(t, i, hi, w);
    let k = find_word(t, i, hi, w);
    if w.len() > 0 && k < hi && k >= i && !(k + w.len() < hi && t[k + w.len()] == 58) {
        lemma_keyword_search(t, k + w.len(), hi, w);
    }
}

proof fn lemma_parse_at_closes(t: Seq<u8>)
    ensures
        parse_at_spec(t, 0) matches Some((f, c)) ==> 2 <= c <= t.len() && (t[c - 1] == 62 || t[c
            - 1] == 93),
{
    lemma_parse_at_len(t, 0);
    if 0 < t.len() && (t[0] == 60 || t[0] == 91) {
        let close: u8 = if t[0] == 60 { 62 } else { 93 };
        lemma_find_byte(t, 0, t.len() as int, close);
        if let Some((f, c)) = parse_one_spec(t, 0) {
            if c + 2 <= t.len() && t[c] == 45 && t[c + 1] == 45 && c + 2 < t.len() && (t[c + 2] == 60
                || t[c + 2] == 91) {
                let close2: u8 = if t[c + 2] == 60 { 62 } else { 93 };
                lemma_find_byte(t, c + 2, t.len() as int, close2);
            }
        }
    }
}

proof fn lemma_remove_anchored(t: Seq<u8>, lo: int, hi: int, kw: int, ee: int)
    requires
        0 <= lo <= kw <= ee <= hi <= t.len(),
        ascii_anchored(t, lo),
        t[kw] < 128,
        ascii_anchored(t, ee),
        ascii_anchored(t, hi),
        hi < t.len() ==> t[hi] == 10,
    ensures
        ascii_anchored(t, remove_spec(t, lo, hi, kw, ee).0),
        ascii_anchored(t, remove_spec(t, lo, hi, kw, ee).1),
        remove_spec(t, lo, hi, kw, ee).0 <= remove_spec(t, lo, hi, kw, ee).1,
{
    lemma_back_blanks_anchor(t, lo, kw);
    lemma_skip_blanks_anchor(t, ee, hi);
}

#[verifier::rlimit(40)]
proof fn lemma_line_edit_anchored(t: Seq<u8>, lo: int, hi: int, kind: PlanningKind, new: Option<PlannedStamp>)
    requires
        0 <= lo <= hi <= t.len(),
        ascii_anchored(t, lo),
        ascii_anchored(t, hi),
        hi < t.len() ==> t[hi] == 10,
    ensures
        ascii_anchored(t, line_edit_spec(t, lo, hi, kind, new).0),
        ascii_anchored(t, line_edit_spec(t, lo, hi, kind, new).1),
{
    let w = keyword_bytes_of(kind);
    lemma_keyword_search(t, lo, hi, w);
    match keyword_search(t, lo, hi, w) {
        None => {},
        Some(k) => {
            assert(t[k] == w[0]) by {
                assert(t.subrange(k, k + w.len())[0] == t[k]);
            }
            let ce = k + w.len() + 1;
            assert(ascii_anchored(t, ce));
            let ts = skip_blanks(t, ce, hi);
            lemma_skip_blanks_anchor(t, ce, hi);
            if ts < hi && (t[ts] == 60 || t[ts] == 91) {
                let sub = t.subrange(ts, hi);
                lemma_parse_at_closes(sub);
                if let Some((f, c)) = parse_at_spec(sub, 0) {
                    assert(t[ts + c - 1] == sub[c - 1]);
                    assert(ascii_anchored(t, ts + c));
                    assert(ascii_anchored(t, ts));
                    lemma_remove_anchored(t, lo, hi, k, ts + c);
                } else {
                    lemma_remove_anchored(t, lo, hi, k, ce);
                }
            } else {
                lemma_remove_anchored(t, lo, hi, k, ce);
            }
        },
    }
}

/// Every edit [`set_planning_timestamp`] computes on a UTF-8 text starts and
/// ends on a character boundary, so applying it never splits a character.
pub proof fn lemma_planning_edit_boundaries(
    t: Seq<u8>,
    offset: int,
    kind: PlanningKind,
    new: Option<PlannedStamp>,
)
    requires
        0 <= offset,
        vstd::utf8::valid_utf8(t),
    ensures
        vstd::utf8::is_char_boundary(t, planning_edit_spec(t, offset, kind, new).0),
        vstd::utf8::is_char_boundary(t, planning_edit_spec(t, offset, kind, new).1),
{
    let n = t.len() as int;
    let off = if offset < n { offset } else { n };
    crate::text::lemma_rfind_byte(t, 0, off, 10);
    let start = crate::text::rfind_byte(t, 0, off, 10) + 1;
    lemma_find_byte(t, start, n, 10);
    let lo = planning_line_start(t, offset);
    lemma_find_byte(t, lo, n, 10);
    let hi = planning_line_end(t, offset);
    assert(ascii_anchored(t, lo));
    assert(ascii_anchored(t, hi));
    let e = planning_edit_spec(t, offset, kind, new);
    if planning_line_spec(t, lo, hi) {
        lemma_line_edit_anchored(t, lo, hi, kind, new);
    }
    assert(ascii_anchored(t, e.0) && ascii_anchored(t, e.1));
    lemma_anchored_boundary(t, e.0);
    lemma_anchored_boundary(t, e.1);
}

} // verus!
