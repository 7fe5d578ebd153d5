//! Drawer classification and `CLOCK:`-line parsing.
//!
//! `:PROPERTIES:` drawers feed headline properties; `:LOGBOOK:` and custom
//! drawers keep their contents raw, and `CLOCK:` lines are parsed textually
//! out of `:LOGBOOK:` contents. A malformed CLOCK line is not an error: it
//! simply stays raw drawer content.
use core::ops::Range;
use chrono::TimeDelta;
use vstd::prelude::*;
use vstd::string::StringSliceAdditionalSpecFns;

use super::timestamp::{parse_one_spec, StampFields, Timestamp};
use crate::text::{
    find_byte, find_byte_at, lemma_find_byte, lemma_parse_bounds, matches_at, parse_u32_range,
    parse_u32_spec, skip_ws, skip_ws_at, decoded, ws_tokens,
};

verus! {

/// The three drawer classes the semantic layer distinguishes.
#[derive(Debug, PartialEq, Eq)]
pub enum DrawerKind {
    /// `:PROPERTIES:` — structured key/value pairs.
    Properties,
    /// `:LOGBOOK:` — matched case-insensitively; CLOCK lines are parsed out
    /// of its contents.
    Logbook,
    /// Any other drawer; carries the name as written.
    Custom(String),
}

impl Clone for DrawerKind {
    fn clone(&self) -> (r: Self)
        ensures
            r == *self,
    {
        match self {
            DrawerKind::Properties => DrawerKind::Properties,
            DrawerKind::Logbook => DrawerKind::Logbook,
            DrawerKind::Custom(s) => DrawerKind::Custom(s.clone()),
        }
    }
}

/// One drawer attached to a headline, with its raw contents and spans.
#[derive(Debug, PartialEq, Eq)]
pub struct Drawer {
    /// Classification by drawer name (case-insensitive for `LOGBOOK`).
    pub kind: DrawerKind,
    /// The drawer name exactly as written (without colons).
    pub name: String,
    /// The drawer's contents, exactly as written.
    pub contents: String,
    /// Byte range of the whole drawer (`:NAME:` through `:END:`).
    pub span: Range<usize>,
    /// Byte range of `contents` in the analyzed source; an empty range
    /// anchored at the drawer's end when there are no contents.
    pub contents_span: Range<usize>,
}

impl Clone for Drawer {
    fn clone(&self) -> (r: Self)
        ensures
            r == *self,
    {
        Drawer {
            kind: self.kind.clone(),
            name: self.name.clone(),
            contents: self.contents.clone(),
            span: self.span.start..self.span.end,
            contents_span: self.contents_span.start..self.contents_span.end,
        }
    }
}

/// A span of time with minute resolution (what a `=> H:MM` CLOCK
/// duration records).
#[derive(Debug, Clone, Copy, PartialEq, Eq, Structural)]
pub struct Duration {
    /// Length in minutes.
    pub minutes: i64,
}

/// `TimeDelta::try_minutes(m)`: `Some` exactly when `m` minutes, counted
/// in seconds, stay within chrono's bounds (±9223372036854775 s, that is
/// `i64::MAX` milliseconds), carrying `m` minutes.
#[verifier::external_body]
fn chrono_try_minutes(m: i64) -> (r: Option<Duration>)
    ensures
        r is Some <==> (-9_223_372_036_854_775 <= 60 * m && 60 * m <= 9_223_372_036_854_775),
        r matches Some(d) ==> d.minutes == m,
{
    TimeDelta::try_minutes(m).map(|d: TimeDelta| Duration { minutes: d.num_minutes() })
}

impl Duration {
    /// `minutes` minutes, or `None` outside chrono's bounds.
    pub fn try_minutes(minutes: i64) -> (r: Option<Duration>)
        ensures
            r is Some <==> (-9_223_372_036_854_775 <= 60 * minutes && 60 * minutes
                <= 9_223_372_036_854_775),
            r matches Some(d) ==> d.minutes == minutes,
    {
        chrono_try_minutes(minutes)
    }
}

/// One `CLOCK:` line parsed from `:LOGBOOK:` contents: open form
/// `CLOCK: [start]`, closed form `CLOCK: [start]--[end] => H:MM`.
#[derive(Debug, PartialEq, Eq)]
pub struct ClockEntry {
    /// Clock-in timestamp.
    pub start: Timestamp,
    /// Clock-out timestamp; `None` while the clock is still running.
    pub end: Option<Timestamp>,
    /// The `=> H:MM` duration as written; `None` for open entries or when
    /// the duration text does not parse.
    pub duration: Option<Duration>,
    /// Byte range of the parsed CLOCK line content in the analyzed source.
    pub span: Range<usize>,
}

impl Clone for ClockEntry {
    fn clone(&self) -> (r: Self)
        ensures
            r == *self,
    {
        let end = match &self.end {
            Some(e) => Some(e.clone()),
            None => None,
        };
        ClockEntry {
            start: self.start.clone(),
            end,
            duration: self.duration,
            span: self.span.start..self.span.end,
        }
    }
}

/// `H:MM` (hours any `u32`, minutes at most 59) as a number of minutes.
pub open spec fn duration_spec(t: Seq<u8>, a: int, b: int) -> Option<int> {
    let p = find_byte(t, a, b, 58);
    if p >= b {
        None
    } else {
        match (parse_u32_spec(t, a, p), parse_u32_spec(t, p + 1, b)) {
            (Some(h), Some(m)) => if m > 59 {
                None
            } else {
                Some(h * 60 + m)
            },
            _ => None,
        }
    }
}

fn parse_duration_range(t: &[u8], a: usize, b: usize) -> (r: Option<Duration>)
    requires
        a <= b <= t@.len(),
    ensures
        match duration_spec(t@, a as int, b as int) {
            Some(m) => r == Some(Duration { minutes: m as i64 }),
            None => r is None,
        },
{
    let p = find_byte_at(t, a, b, 58);
    if p >= b {
        return None;
    }
    let h = parse_u32_range(t, a, p);
    let m = parse_u32_range(t, p + 1, b);
    proof {
        lemma_parse_bounds(t@, a as int, p as int, 0, 0);
        lemma_parse_bounds(t@, p + 1, b as int, 0, 0);
    }
    match (h, m) {
        (Some(h), Some(m)) => {
            if m > 59 {
                return None;
            }
            let total: i64 = (h as i64) * 60 + (m as i64);
            let r = chrono_try_minutes(total);
            proof {
                if let Some(d) = r {
                    assert(d == Duration { minutes: total });
                }
            }
            r
        },
        _ => None,
    }
}

/// `H:MM` (hours unbounded within `u32`, minutes `00`–`59`) → duration.
/// Signed or out-of-range components are rejected.
pub fn parse_duration(token: &str) -> (r: Option<Duration>)
    ensures
        match duration_spec(token.spec_bytes(), 0, token.spec_bytes().len() as int) {
            Some(m) => r == Some(Duration { minutes: m as i64 }),
            None => r is None,
        },
{
    let t = token.as_bytes();
    parse_duration_range(t, 0, t.len())
}

/// `CLOCK:` in ASCII.
pub open spec fn clock_word() -> Seq<u8> {
    seq![67u8, 76, 79, 67, 75, 58]
}

/// What one CLOCK line yields, with offsets relative to the line: the start
/// stamp (fields, position, length), the end stamp likewise, the duration in
/// minutes, and the parsed content range.
pub struct ClockParse {
    /// Start stamp fields, its offset and its length.
    pub start: (StampFields, int, int),
    /// End stamp fields, its offset and its length, for a closed entry.
    pub end: Option<(StampFields, int, int)>,
    /// The duration in minutes, when written and well-formed.
    pub duration: Option<int>,
    /// Start of the parsed content (after the indentation).
    pub lo: int,
    /// End of the parsed content.
    pub hi: int,
}

/// Parse one CLOCK line `l` (which may end with its newline).
pub open spec fn clock_line_spec(l: Seq<u8>) -> Option<ClockParse> {
    let n = l.len() as int;
    let indent = skip_ws(l, 0, n);
    let start_pos = skip_ws(l, indent + 6, n);
    if !matches_at(l, indent, clock_word()) {
        None
    } else {
        match parse_one_spec(l, start_pos) {
            None => None,
            Some((f, c)) => {
                let cur = start_pos + c;
                let dashes = cur + 2 <= n && l[cur] == 45 && l[cur + 1] == 45;
                let second = parse_one_spec(l, cur + 2);
                if dashes && second is None {
                    None
                } else {
                    let (end, cur2) = match second {
                        Some((g, c2)) => if dashes {
                            (Some((g, cur + 2, c2)), cur + 2 + c2)
                        } else {
                            (None, cur)
                        },
                        None => (None, cur),
                    };
                    let ts = skip_ws(l, cur2, n);
                    let arrow = ts + 2 <= n && l[ts] == 61 && l[ts + 1] == 62;
                    let toks = ws_tokens(l, ts + 2, n);
                    let dur = if arrow && toks.len() > 0 {
                        duration_spec(l, toks[0].0, toks[0].1)
                    } else {
                        None
                    };
                    let hi = if dur is Some {
                        toks[0].1
                    } else {
                        cur2
                    };
                    Some(ClockParse { start: (f, start_pos, c), end, duration: dur, lo: indent, hi })
                }
            },
        }
    }
}

/// `ts` is the stamp with fields `f` spanning `l[pos..pos + c)` of a line
/// at source offset `off`.
pub open spec fn stamp_at(ts: Timestamp, f: StampFields, l: Seq<u8>, pos: int, c: int, off: int) -> bool {
    &&& ts.fields() == f
    &&& ts.raw@ == decoded(l.subrange(pos, pos + c))
    &&& ts.span.start == off + pos
    &&& ts.span.end == off + pos + c
}

/// `e` is the entry `p` describes for the line `l` at source offset `off`.
pub open spec fn entry_from(e: ClockEntry, p: ClockParse, l: Seq<u8>, off: int) -> bool {
    &&& stamp_at(e.start, p.start.0, l, p.start.1, p.start.2, off)
    &&& match p.end {
        None => e.end is None,
        Some((g, pos, c)) => e.end matches Some(x) && stamp_at(x, g, l, pos, c, off),
    }
    &&& match p.duration {
        None => e.duration is None,
        Some(m) => e.duration == Some(Duration { minutes: m as i64 }),
    }
    &&& e.span.start == off + p.lo
    &&& e.span.end == off + p.hi
}

fn clock_bytes() -> (r: [u8; 6])
    ensures
        r@ == clock_word(),
{
    let r = [67u8, 76, 79, 67, 75, 58];
    assert(r@ =~= clock_word());
    r
}

/// Build a timestamp from parsed fields for `l[pos..pos + c)`.
fn stamp_value(l: &[u8], f: StampFields, pos: usize, c: usize, off: usize) -> (r: Timestamp)
    requires
        pos + c <= l@.len(),
        off + l@.len() <= usize::MAX,
    ensures
        stamp_at(r, f, l@, pos as int, c as int, off as int),
{
    Timestamp {
        active: f.0,
        date: f.1,
        time: f.2,
        end_date: f.3,
        end_time: f.4,
        repeater: f.5,
        delay: f.6,
        raw: crate::text::substring(l, pos, pos + c),
        span: off + pos..off + pos + c,
    }
}

/// Parse the CLOCK line held in `l`, at source offset `off`.
#[verifier::rlimit(30)]
fn clock_line_bytes(l: &[u8], off: usize) -> (r: Option<ClockEntry>)
    requires
        off + l@.len() <= usize::MAX,
    ensures
        match clock_line_spec(l@) {
            None => r is None,
            Some(p) => r matches Some(e) && entry_from(e, p, l@, off as int),
        },
{
    let n = l.len();
    let indent = skip_ws_at(l, 0, n);
    proof {
        crate::text::lemma_skip_ws_bounds(l@, 0, n as int);
    }
    let cw = clock_bytes();
    if !crate::text::bytes_match_at(l, indent, &cw) {
        return None;
    }
    let start_pos = skip_ws_at(l, indent + 6, n);
    proof {
        crate::text::lemma_skip_ws_bounds(l@, indent + 6, n as int);
        super::timestamp::lemma_parse_one_len(l@, start_pos as int);
    }
    let (f, c) = match super::timestamp::scan_one(l, start_pos) {
        Some(x) => x,
        None => {
            return None;
        },
    };
    let cur = start_pos + c;
    let dashes = n >= 2 && cur <= n - 2 && l[cur] == 45 && l[cur + 1] == 45;
    let mut end: Option<Timestamp> = None;
    let mut cur2 = cur;
    if dashes {
        proof {
            super::timestamp::lemma_parse_one_len(l@, cur + 2);
        }
        match super::timestamp::scan_one(l, cur + 2) {
            Some((g, c2)) => {
                end = Some(stamp_value(l, g, cur + 2, c2, off));
                cur2 = cur + 2 + c2;
            },
            None => {
                return None;
            },
        }
    }
    let ts = skip_ws_at(l, cur2, n);
    proof {
        crate::text::lemma_skip_ws_bounds(l@, cur2 as int, n as int);
    }
    let mut duration: Option<Duration> = None;
    let mut hi = cur2;
    if n >= 2 && ts <= n - 2 && l[ts] == 61 && l[ts + 1] == 62 {
        let toks = crate::text::split_ws(l, ts + 2, n);
        proof {
            crate::semantic::todo::lemma_ws_tokens_in_range(l@, ts + 2, n as int);
        }
        if toks.len() > 0 {
            let (a, b) = toks[0];
            duration = parse_duration_range(l, a, b);
            if duration.is_some() {
                hi = b;
            }
        }
    }
    let start = stamp_value(l, f, start_pos, c, off);
    Some(ClockEntry { start, end, duration, span: off + indent..off + hi })
}

/// Parse a single `CLOCK:` line at source offset `line_offset`; `None` for
/// anything malformed (including a `--` whose end stamp does not parse).
/// An unparseable duration drops the field, not the entry.
pub fn parse_clock_line(line: &str, line_offset: usize) -> (r: Option<ClockEntry>)
    requires
        line_offset + line.spec_bytes().len() <= usize::MAX,
    ensures
        match clock_line_spec(line.spec_bytes()) {
            None => r is None,
            Some(p) => r matches Some(e) && entry_from(e, p, line.spec_bytes(), line_offset as int),
        },
{
    clock_line_bytes(line.as_bytes(), line_offset)
}

/// End of the line starting at `pos` (just past its `\n`, or the end).
pub open spec fn line_end_from(t: Seq<u8>, pos: int) -> int {
    let e = find_byte(t, pos, t.len() as int, 10);
    if e < t.len() {
        e + 1
    } else {
        t.len() as int
    }
}

/// The CLOCK lines of `t[pos..)`, split after each `\n`: each parse with its
/// line's range.
pub open spec fn clock_parses_from(t: Seq<u8>, pos: int) -> Seq<(ClockParse, int, int)>
    decreases t.len() - pos,
{
    if pos < 0 || pos >= t.len() {
        seq![]
    } else {
        let le = line_end_from(t, pos);
        let rest = if le > pos {
            clock_parses_from(t, le)
        } else {
            seq![]
        };
        match clock_line_spec(t.subrange(pos, le)) {
            Some(p) => seq![(p, pos, le)] + rest,
            None => rest,
        }
    }
}

/// Every CLOCK line range lies inside `t`.
pub proof fn lemma_clock_parses_bounds(t: Seq<u8>, pos: int)
    requires
        0 <= pos,
    ensures
        forall|i: int|
            0 <= i < clock_parses_from(t, pos).len() ==> pos <= (#[trigger] clock_parses_from(
                t,
                pos,
            )[i]).1 <= clock_parses_from(t, pos)[i].2 <= t.len(),
    decreases t.len() - pos,
{
    if pos < t.len() {
        lemma_line_end(t, pos);
        let le = line_end_from(t, pos);
        lemma_clock_parses_bounds(t, le);
        let rest = clock_parses_from(t, le);
        let all = clock_parses_from(t, pos);
        assert forall|i: int| 0 <= i < all.len() implies pos <= (#[trigger] all[i]).1 <= all[i].2
            <= t.len() by {
            match clock_line_spec(t.subrange(pos, le)) {
                Some(p) => {
                    if i > 0 {
                        assert(all[i] == rest[i - 1]);
                    }
                },
                None => {
                    assert(all[i] == rest[i]);
                },
            }
        }
    }
}

proof fn lemma_line_end(t: Seq<u8>, pos: int)
    requires
        0 <= pos < t.len(),
    ensures
        pos < line_end_from(t, pos) <= t.len(),
{
    lemma_find_byte(t, pos, t.len() as int, 10);
}

/// `r` holds exactly the CLOCK entries of the lines of `t` (source offset
/// `offset`), in order.
pub open spec fn clocks_scanned(r: Seq<ClockEntry>, t: Seq<u8>, offset: int) -> bool {
    &&& r.len() == clock_parses_from(t, 0).len()
    &&& forall|i: int|
        0 <= i < r.len() ==> {
            let (p, lo, hi) = #[trigger] clock_parses_from(t, 0)[i];
            entry_from(r[i], p, t.subrange(lo, hi), offset + lo)
        }
}

/// Scan drawer contents line by line for well-formed `CLOCK:` lines.
/// `offset` is the byte position of `contents[0]` in the analyzed source.
/// Lines that do not parse are skipped.
pub fn parse_clock_lines(contents: &str, offset: usize) -> (r: Vec<ClockEntry>)
    requires
        offset + contents.spec_bytes().len() <= usize::MAX,
    ensures
        clocks_scanned(r@, contents.spec_bytes(), offset as int),
{
    clock_lines_bytes(contents.as_bytes(), offset)
}

/// [`parse_clock_lines`] over the bytes `t`.
#[verifier::rlimit(40)]
pub fn clock_lines_bytes(t: &[u8], offset: usize) -> (r: Vec<ClockEntry>)
    requires
        offset + t@.len() <= usize::MAX,
    ensures
        clocks_scanned(r@, t@, offset as int),
{
    let n = t.len();
    let mut out: Vec<ClockEntry> = Vec::new();
    let ghost done: Seq<(ClockParse, int, int)> = seq![];
    let mut pos: usize = 0;
    while pos < n
        invariant
            pos <= n == t@.len(),
            offset + n <= usize::MAX,
            clock_parses_from(t@, 0) == done + clock_parses_from(t@, pos as int),
            out@.len() == done.len(),
            forall|i: int|
                0 <= i < out@.len() ==> {
                    let (p, lo, hi) = #[trigger] done[i];
                    entry_from(out@[i], p, t@.subrange(lo, hi), offset + lo)
                },
        decreases n - pos,
    {
        let e = find_byte_at(t, pos, n, 10);
        let le = if e < n {
            e + 1
        } else {
            n
        };
        proof {
            lemma_line_end(t@, pos as int);
        }
        let line = vstd::slice::slice_subrange(t, pos, le);
        let parsed = clock_line_bytes(line, offset + pos);
        match parsed {
            Some(entry) => {
                proof {
                    let p = clock_line_spec(t@.subrange(pos as int, le as int))->0;
                    assert(clock_parses_from(t@, pos as int) == seq![(p, pos as int, le as int)]
                        + clock_parses_from(t@, le as int));
                    assert(done + clock_parses_from(t@, pos as int) =~= (done + seq![
                        (p, pos as int, le as int),
                    ]) + clock_parses_from(t@, le as int));
                    done = done + seq![(p, pos as int, le as int)];
                }
                out.push(entry);
            },
            None => {
                proof {
                    assert(clock_parses_from(t@, pos as int) == clock_parses_from(t@, le as int));
                }
            },
        }
        pos = le;
    }
    proof {
        assert(clock_parses_from(t@, n as int) =~= seq![]);
        assert(done + seq![] =~= done);
    }
    out
}

} // verus!
