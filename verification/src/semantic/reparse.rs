//! A written planning stamp reads back as what was written.
use vstd::prelude::*;
use vstd::utf8::{encode_utf8, is_ascii_chars, is_ascii_chars_encode_utf8};

use crate::semantic::timestamp::{
    date_spec, delay_spec, delay_text, hm_spec, padded, repeater_spec, repeater_text, time_text,
    time_token_spec, interval_spec, fold_tokens, token_step, TokenState, unit_of, unit_text, weekday_name, year_text, valid_ymd, weekday_from_sunday, PlannedStamp, planning_text, date_text, parse_at_spec, parse_one_spec,
    planning_edit_spec, planning_line_start, planning_line_end, planning_line_spec, keyword_bytes_of,
    entry_spec, skip_blanks, keyword_prefix, headline_line_end, newline_text, PlanningKind, Date, Delay, DelayKind, Repeater,
    keyword_text, keyword_search, find_word, back_blanks, remove_spec, line_edit_spec, word_colon_at, scheduled_word,
    deadline_word, closed_word,
    RepeaterKind, Time, TimeUnit,
};
use crate::text::{
    next_ws, skip_ws, ws_tokens, ws_width, all_digits, decimal, digit_char, digits_up_to, digits_value, find_byte, is_digit,
    lemma_find_byte, lemma_parse_bounds, parse_signed_spec, parse_u32_spec, rfind_byte, lemma_rfind_byte,
    matches_at, ws_in, lemma_skip_ws_bounds, lemma_next_ws_bounds,
};

verus! {

/// The bytes of an ASCII text, one per character.
pub open spec fn ascii_bytes(s: Seq<char>) -> Seq<u8> {
    Seq::new(s.len(), |i: int| s[i] as u8)
}

/// `decimal(v)` is a non-empty run of digits, as long as `v` needs.
proof fn lemma_decimal_digits(v: nat)
    ensures
        decimal(v).len() >= 1,
        forall|i: int| 0 <= i < decimal(v).len() ==> '0' <= #[trigger] decimal(v)[i] <= '9',
        v < 10 ==> decimal(v).len() == 1,
        10 <= v < 100 ==> decimal(v).len() == 2,
        100 <= v < 1000 ==> decimal(v).len() == 3,
        1000 <= v < 10000 ==> decimal(v).len() == 4,
        v >= 10000 ==> decimal(v).len() >= 5,
    decreases v,
{
    if v >= 10 {
        lemma_decimal_digits(v / 10);
    }
}

/// The value of a digit run depends only on its bytes.
proof fn lemma_digits_value_shift(s: Seq<u8>, a: int, t: Seq<u8>, c: int, n: int)
    requires
        0 <= n,
        0 <= a,
        a + n <= s.len(),
        0 <= c,
        c + n <= t.len(),
        s.subrange(a, a + n) == t.subrange(c, c + n),
    ensures
        digits_value(s, a, a + n) == digits_value(t, c, c + n),
        all_digits(s, a, a + n) == all_digits(t, c, c + n),
    decreases n,
{
    if n > 0 {
        assert(s.subrange(a, a + n - 1) =~= s.subrange(a, a + n).subrange(0, n - 1));
        assert(t.subrange(c, c + n - 1) =~= t.subrange(c, c + n).subrange(0, n - 1));
        lemma_digits_value_shift(s, a, t, c, n - 1);
        assert(s[a + n - 1] == s.subrange(a, a + n)[n - 1]);
        assert(t[c + n - 1] == t.subrange(c, c + n)[n - 1]);
        if all_digits(s, a, a + n) {
            assert forall|k: int| c <= k < c + n implies is_digit(#[trigger] t[k]) by {
                assert(t[k] == t.subrange(c, c + n)[k - c]);
                assert(s[a + (k - c)] == s.subrange(a, a + n)[k - c]);
            }
        }
        if all_digits(t, c, c + n) {
            assert forall|k: int| a <= k < a + n implies is_digit(#[trigger] s[k]) by {
                assert(s[k] == s.subrange(a, a + n)[k - a]);
                assert(t[c + (k - a)] == t.subrange(c, c + n)[k - a]);
            }
        }
    }
}

/// The bytes of `decimal(v)` read back as `v`.
proof fn lemma_decimal_value(v: nat)
    ensures
        all_digits(ascii_bytes(decimal(v)), 0, decimal(v).len() as int),
        digits_value(ascii_bytes(decimal(v)), 0, decimal(v).len() as int) == v,
    decreases v,
{
    lemma_decimal_digits(v);
    let d = decimal(v);
    let s = ascii_bytes(d);
    let n = d.len() as int;
    assert forall|k: int| 0 <= k < n implies is_digit(#[trigger] s[k]) by {
        assert('0' <= d[k] <= '9');
    }
    if v >= 10 {
        let p = decimal(v / 10);
        lemma_decimal_value(v / 10);
        assert(d == p + seq![digit_char((v % 10) as int)]);
        assert(s.subrange(0, n - 1) =~= ascii_bytes(p).subrange(0, n - 1));
        lemma_digits_value_shift(s, 0, ascii_bytes(p), 0, n - 1);
        assert(s[n - 1] == 48 + v % 10);
        assert(digits_value(s, 0, n) == digits_value(s, 0, n - 1) * 10 + (s[n - 1] - 48));
        assert(digits_value(s, 0, n - 1) == v / 10);
        assert((v / 10) * 10 + v % 10 == v);
    } else {
        assert(s[0] == 48 + v);
        assert(digits_value(s, 0, 1) == digits_value(s, 0, 0) * 10 + (s[0] - 48));
    }
}

/// A run of `0` digits before `z` adds nothing to the value.
proof fn lemma_leading_zeros(s: Seq<u8>, z: int, b: int)
    requires
        0 <= z <= b <= s.len(),
        forall|k: int| 0 <= k < z ==> s[k] == 48,
    ensures
        digits_value(s, 0, b) == digits_value(s, z, b),
    decreases b,
{
    if b > z {
        lemma_leading_zeros(s, z, b - 1);
    } else {
        lemma_zeros_value(s, b);
    }
}

proof fn lemma_zeros_value(s: Seq<u8>, b: int)
    requires
        0 <= b <= s.len(),
        forall|k: int| 0 <= k < b ==> s[k] == 48,
    ensures
        digits_value(s, 0, b) == 0,
    decreases b,
{
    if b > 0 {
        lemma_zeros_value(s, b - 1);
    }
}

/// The bytes of `padded(v, w)` are digits reading back as `v`.
proof fn lemma_padded_value(v: nat, w: int)
    ensures
        all_digits(ascii_bytes(padded(v, w)), 0, padded(v, w).len() as int),
        digits_value(ascii_bytes(padded(v, w)), 0, padded(v, w).len() as int) == v,
        padded(v, w).len() >= 1,
        forall|i: int| 0 <= i < padded(v, w).len() ==> '0' <= #[trigger] padded(v, w)[i] <= '9',
{
    lemma_decimal_value(v);
    lemma_decimal_digits(v);
    let d = decimal(v);
    let p = padded(v, w);
    let s = ascii_bytes(p);
    let n = p.len() as int;
    if d.len() < w {
        let z = w - d.len();
        assert forall|i: int| 0 <= i < n implies '0' <= #[trigger] p[i] <= '9' by {
            if i >= z {
                assert(p[i] == d[i - z]);
            }
        }
        assert forall|k: int| 0 <= k < n implies is_digit(#[trigger] s[k]) by {
            assert('0' <= p[k] <= '9');
        }
        lemma_leading_zeros(s, z, n);
        assert(s.subrange(z, n) =~= ascii_bytes(d).subrange(0, d.len() as int));
        lemma_digits_value_shift(s, z, ascii_bytes(d), 0, d.len() as int);
    } else {
        assert(s =~= ascii_bytes(d));
    }
}

/// A digit run placed at `t[a..b)` parses as its value, unsigned or signed.
proof fn lemma_parse_run(t: Seq<u8>, a: int, b: int, digits: Seq<char>, v: nat)
    requires
        0 <= a < b <= t.len(),
        t.subrange(a, b) == ascii_bytes(digits),
        all_digits(ascii_bytes(digits), 0, digits.len() as int),
        digits_value(ascii_bytes(digits), 0, digits.len() as int) == v,
        v <= 0xFFFF_FFFF,
    ensures
        parse_u32_spec(t, a, b) == Some(v as int),
        v <= 0x7FFF_FFFF ==> parse_signed_spec(t, a, b, 0x7FFF_FFFF, 0x8000_0000) == Some(v as int),
{
    let n = b - a;
    assert(t.subrange(a, a + n) =~= ascii_bytes(digits).subrange(0, n));
    assert(ascii_bytes(digits).subrange(0, n) =~= ascii_bytes(digits));
    lemma_digits_value_shift(t, a, ascii_bytes(digits), 0, n);
    assert(t[a] == t.subrange(a, b)[0]);
    assert(is_digit(ascii_bytes(digits)[0]));
    assert(digits_up_to(t, a, b, 0xFFFF_FFFF) == Some(v as int));
}

/// Visible ASCII: never whitespace.
pub open spec fn is_plain(c: u8) -> bool {
    33 <= c <= 126
}

/// Every character of `s` is visible ASCII other than `>`.
pub open spec fn plain_text(s: Seq<char>) -> bool {
    forall|i: int| 0 <= i < s.len() ==> '!' <= #[trigger] s[i] <= '~' && s[i] != '>'
}

/// `find_byte` stops at the first `c`.
proof fn lemma_find_at(s: Seq<u8>, i: int, j: int, hi: int, c: u8)
    requires
        i <= j < hi,
        s[j] == c,
        forall|k: int| i <= k < j ==> s[k] != c,
    ensures
        find_byte(s, i, hi, c) == j,
{
    lemma_find_byte(s, i, hi, c);
}

/// `find_byte` runs to the end when there is no `c`.
proof fn lemma_find_none(s: Seq<u8>, i: int, hi: int, c: u8)
    requires
        i <= hi,
        forall|k: int| i <= k < hi ==> s[k] != c,
    ensures
        find_byte(s, i, hi, c) == hi,
{
    lemma_find_byte(s, i, hi, c);
}

/// The lengths of the fixed-width fields.
proof fn lemma_padded_len(v: nat, w: int)
    requires
        w == 2 && v < 100 || w == 4 && v < 10000,
    ensures
        padded(v, w).len() == w,
{
    lemma_decimal_digits(v);
}

/// The text of a date's `%Y-%m-%d` part.
pub open spec fn ymd_text(d: Date) -> Seq<char> {
    year_text(d.year as int) + seq!['-'] + padded(d.month as nat, 2) + seq!['-'] + padded(
        d.day as nat,
        2,
    )
}

/// A non-negative year's text: four digits, or `+` and its digits past 9999.
proof fn lemma_year_text(y: int)
    requires
        0 <= y <= 262142,
    ensures
        y <= 9999 ==> year_text(y) == padded(y as nat, 4) && year_text(y).len() == 4,
        y > 9999 ==> year_text(y) == seq!['+'] + decimal(y as nat) && year_text(y).len() >= 6,
        plain_text(year_text(y)),
        forall|i: int| 0 <= i < year_text(y).len() ==> year_text(y)[i] != '-',
{
    lemma_decimal_digits(y as nat);
    lemma_padded_value(y as nat, 4);
    if y <= 9999 {
        lemma_padded_len(y as nat, 4);
    } else {
        assert(padded(y as nat, 4) == decimal(y as nat));
    }
}

/// A date written as `%Y-%m-%d` at `t[a..)` parses as that date.
proof fn lemma_date_token(t: Seq<u8>, a: int, d: Date)
    requires
        d.wf(),
        0 <= d.year,
        0 <= a,
        a + ymd_text(d).len() <= t.len(),
        t.subrange(a, a + ymd_text(d).len()) == ascii_bytes(ymd_text(d)),
    ensures
        ymd_text(d).len() == year_text(d.year as int).len() + 6,
        date_spec(t, a, a + ymd_text(d).len()) == Some(d),
{
    let yt = year_text(d.year as int);
    let m = padded(d.month as nat, 2);
    let dd = padded(d.day as nat, 2);
    let ly = yt.len() as int;
    lemma_year_text(d.year as int);
    lemma_padded_len(d.month as nat, 2);
    lemma_padded_len(d.day as nat, 2);
    lemma_padded_value(d.month as nat, 2);
    lemma_padded_value(d.day as nat, 2);
    let whole = ymd_text(d);
    let e = a + ly + 6;
    assert forall|k: int| 0 <= k < ly + 6 implies t[a + k] == whole[k] as u8 by {
        assert(t[a + k] == t.subrange(a, e)[k]);
    }
    assert forall|k: int| a <= k < a + ly implies t[k] != 45 by {
        assert(t[a + (k - a)] == whole[k - a] as u8);
        assert(yt[k - a] != '-');
    }
    assert(t[a + ly] == whole[ly] as u8);
    lemma_find_at(t, a, a + ly, e, 45);
    assert forall|k: int| a + ly + 1 <= k < a + ly + 3 implies t[k] != 45 by {
        assert(t[a + (k - a)] == whole[k - a] as u8);
        assert('0' <= m[k - a - ly - 1] <= '9');
    }
    assert(t[a + ly + 3] == whole[ly + 3] as u8);
    lemma_find_at(t, a + ly + 1, a + ly + 3, e, 45);
    assert forall|k: int| 0 <= k < 2 implies t[a + ly + 1 + k] == ascii_bytes(m)[k] && t[a + ly + 4
        + k] == ascii_bytes(dd)[k] by {
        assert(t[a + (ly + 1 + k)] == whole[ly + 1 + k] as u8);
        assert(whole[ly + 1 + k] == m[k]);
        assert(t[a + (ly + 4 + k)] == whole[ly + 4 + k] as u8);
        assert(whole[ly + 4 + k] == dd[k]);
    }
    assert(t.subrange(a + ly + 1, a + ly + 3) =~= ascii_bytes(m));
    assert(t.subrange(a + ly + 4, e) =~= ascii_bytes(dd));
    lemma_parse_run(t, a + ly + 1, a + ly + 3, m, d.month as nat);
    lemma_parse_run(t, a + ly + 4, e, dd, d.day as nat);
    if d.year <= 9999 {
        let y = padded(d.year as nat, 4);
        lemma_padded_value(d.year as nat, 4);
        assert forall|k: int| 0 <= k < 4 implies t[a + k] == ascii_bytes(y)[k] by {
            assert(whole[k] == y[k]);
        }
        assert(t.subrange(a, a + 4) =~= ascii_bytes(y));
        lemma_parse_run(t, a, a + 4, y, d.year as nat);
    } else {
        let y = decimal(d.year as nat);
        lemma_decimal_value(d.year as nat);
        assert forall|k: int| 0 <= k < ly - 1 implies t[a + 1 + k] == ascii_bytes(y)[k] by {
            assert(t[a + (1 + k)] == whole[1 + k] as u8);
            assert(whole[1 + k] == yt[1 + k]);
        }
        assert(t.subrange(a + 1, a + ly) =~= ascii_bytes(y));
        lemma_parse_run(t, a + 1, a + ly, y, d.year as nat);
        assert(t[a] == whole[0] as u8);
        assert(whole[0] == '+');
        assert(t[a + 1] == ascii_bytes(y)[0]);
        assert(parse_signed_spec(t, a + 1, a + ly, 0x7FFF_FFFF, 0x8000_0000) == Some(d.year as int));
        assert(digits_up_to(t, a + 1, a + ly, 0x7FFF_FFFF) == Some(d.year as int));
    }
    assert(parse_signed_spec(t, a, a + ly, 0x7FFF_FFFF, 0x8000_0000) == Some(d.year as int));
    assert(parse_u32_spec(t, a + ly + 1, a + ly + 3) == Some(d.month as int));
    assert(parse_u32_spec(t, a + ly + 4, e) == Some(d.day as int));
    assert(valid_ymd(d.year as int, d.month as int, d.day as int));
}

/// `HH:MM` at `t[a..a+5)` is a time token with no end time.
proof fn lemma_time_token(t: Seq<u8>, a: int, tm: Time)
    requires
        tm.wf(),
        0 <= a,
        a + 5 <= t.len(),
        t.subrange(a, a + 5) == ascii_bytes(time_text(tm)),
    ensures
        time_token_spec(t, a, a + 5) == Some((tm, None::<Time>)),
{
    let h = padded(tm.hour as nat, 2);
    let m = padded(tm.minute as nat, 2);
    lemma_padded_len(tm.hour as nat, 2);
    lemma_padded_len(tm.minute as nat, 2);
    lemma_padded_value(tm.hour as nat, 2);
    lemma_padded_value(tm.minute as nat, 2);
    let whole = time_text(tm);
    assert(whole == h + seq![':'] + m);
    assert forall|k: int| 0 <= k < 5 implies t[a + k] == whole[k] as u8 by {
        assert(t[a + k] == t.subrange(a, a + 5)[k]);
    }
    assert forall|k: int| a <= k < a + 5 implies t[k] != 45 by {
        assert(t[a + (k - a)] == whole[k - a] as u8);
        if k - a < 2 {
            assert('0' <= h[k - a] <= '9');
        } else if k - a > 2 {
            assert('0' <= m[k - a - 3] <= '9');
        }
    }
    lemma_find_none(t, a, a + 5, 45);
    assert forall|k: int| a <= k < a + 2 implies t[k] != 58 by {
        assert(t[a + (k - a)] == whole[k - a] as u8);
        assert('0' <= h[k - a] <= '9');
    }
    assert(t[a + 2] == whole[2] as u8);
    lemma_find_at(t, a, a + 2, a + 5, 58);
    assert(t.subrange(a, a + 2) =~= ascii_bytes(h));
    assert forall|k: int| 0 <= k < 2 implies t[a + 3 + k] == ascii_bytes(m)[k] by {
        assert(t[a + (3 + k)] == whole[3 + k] as u8);
        assert(whole[3 + k] == m[k]);
    }
    assert(t.subrange(a + 3, a + 5) =~= ascii_bytes(m));
    lemma_parse_run(t, a, a + 2, h, tm.hour as nat);
    lemma_parse_run(t, a + 3, a + 5, m, tm.minute as nat);
    assert(hm_spec(t, a, a + 5) == Some(tm));
}

/// A weekday name is neither a time, a repeater nor a delay.
proof fn lemma_weekday_token(t: Seq<u8>, a: int, w: int)
    requires
        0 <= a,
        a + 3 <= t.len(),
        t.subrange(a, a + 3) == ascii_bytes(weekday_name(w)),
    ensures
        time_token_spec(t, a, a + 3) is None,
        repeater_spec(t, a, a + 3) is None,
        delay_spec(t, a, a + 3) is None,
{
    let n = weekday_name(w);
    assert forall|k: int| a <= k < a + 3 implies t[k] != 45 && t[k] != 58 && t[k] != 43 && t[k]
        != 46 by {
        assert(t[k] == t.subrange(a, a + 3)[k - a]);
    }
    lemma_find_none(t, a, a + 3, 45);
    lemma_find_none(t, a, a + 3, 58);
}

/// `decimal(v)` and a unit letter at `t[rest..b)` are that interval.
proof fn lemma_interval_token(t: Seq<u8>, rest: int, b: int, v: nat, unit: TimeUnit)
    requires
        0 <= rest <= b <= t.len(),
        0 < v <= 0xFFFF_FFFF,
        t.subrange(rest, b) == ascii_bytes(decimal(v) + seq![unit_text(unit)]),
    ensures
        interval_spec(t, rest, b) == Some((v as u32, unit)),
        forall|k: int| rest <= k < b ==> t[k] != 45 && t[k] != 58 && t[k] != 43,
{
    let d = decimal(v);
    let whole = d + seq![unit_text(unit)];
    lemma_decimal_digits(v);
    lemma_decimal_value(v);
    assert(whole.len() == d.len() + 1);
    assert(ascii_bytes(whole).len() == whole.len());
    assert(t.subrange(rest, b).len() == b - rest);
    assert(b == rest + d.len() + 1);
    assert forall|k: int| rest <= k < b implies t[k] == whole[k - rest] as u8 by {
        assert(t[k] == t.subrange(rest, b)[k - rest]);
    }
    assert forall|k: int| rest <= k < b implies t[k] != 45 && t[k] != 58 && t[k] != 43 by {
        assert(t[k] == whole[k - rest] as u8);
        if k - rest < d.len() {
            assert('0' <= d[k - rest] <= '9');
        }
    }
    assert(t[b - 1] == whole[d.len() as int] as u8);
    assert(unit_of(t[b - 1]) == Some(unit));
    assert forall|k: int| 0 <= k < d.len() implies t[rest + k] == ascii_bytes(d)[k] by {
        assert(t[rest + k] == whole[k] as u8);
    }
    assert(t.subrange(rest, b - 1) =~= ascii_bytes(d));
    lemma_parse_run(t, rest, b - 1, d, v);
}

/// A repeater cookie is no time and reads back as the repeater.
proof fn lemma_repeater_token(t: Seq<u8>, a: int, r: Repeater)
    requires
        r.value > 0,
        0 <= a,
        a + repeater_text(r).len() <= t.len(),
        t.subrange(a, a + repeater_text(r).len()) == ascii_bytes(repeater_text(r)),
    ensures
        time_token_spec(t, a, a + repeater_text(r).len()) is None,
        repeater_spec(t, a, a + repeater_text(r).len()) == Some(r),
{
    let text = repeater_text(r);
    let b = a + text.len();
    let pre: int = match r.kind {
        RepeaterKind::Cumulate => 1,
        _ => 2,
    };
    let tail = decimal(r.value as nat) + seq![unit_text(r.unit)];
    assert(text == text.subrange(0, pre) + tail);
    lemma_decimal_digits(r.value as nat);
    assert forall|k: int| a <= k < b implies t[k] == text[k - a] as u8 by {
        assert(t[k] == t.subrange(a, b)[k - a]);
    }
    assert forall|k: int| 0 <= k < tail.len() implies t[a + pre + k] == ascii_bytes(tail)[k] by {
        assert(t[a + pre + k] == text[pre + k] as u8);
    }
    assert(t.subrange(a + pre, b) =~= ascii_bytes(tail));
    lemma_interval_token(t, a + pre, b, r.value as nat, r.unit);
    assert(t[a] == text[0] as u8);
    assert(t[a + 1] == text[1] as u8);
    assert forall|k: int| a <= k < b implies t[k] != 45 && t[k] != 58 by {
        if k >= a + pre {
        } else {
            assert(t[k] == text[k - a] as u8);
        }
    }
    lemma_find_none(t, a, b, 45);
    lemma_find_none(t, a, b, 58);
}

/// A delay cookie is neither a time nor a repeater and reads back as the
/// delay.
proof fn lemma_delay_token(t: Seq<u8>, a: int, l: Delay)
    requires
        l.value > 0,
        0 <= a,
        a + delay_text(l).len() <= t.len(),
        t.subrange(a, a + delay_text(l).len()) == ascii_bytes(delay_text(l)),
    ensures
        time_token_spec(t, a, a + delay_text(l).len()) is None,
        repeater_spec(t, a, a + delay_text(l).len()) is None,
        delay_spec(t, a, a + delay_text(l).len()) == Some(l),
{
    let text = delay_text(l);
    let b = a + text.len();
    let pre: int = match l.kind {
        DelayKind::All => 1,
        DelayKind::First => 2,
    };
    let tail = decimal(l.value as nat) + seq![unit_text(l.unit)];
    assert(text == text.subrange(0, pre) + tail);
    lemma_decimal_digits(l.value as nat);
    assert forall|k: int| a <= k < b implies t[k] == text[k - a] as u8 by {
        assert(t[k] == t.subrange(a, b)[k - a]);
    }
    assert forall|k: int| 0 <= k < tail.len() implies t[a + pre + k] == ascii_bytes(tail)[k] by {
        assert(t[a + pre + k] == text[pre + k] as u8);
    }
    assert(t.subrange(a + pre, b) =~= ascii_bytes(tail));
    lemma_interval_token(t, a + pre, b, l.value as nat, l.unit);
    assert(t[a] == text[0] as u8);
    assert(t[a + 1] == text[1] as u8);
    lemma_find_at(t, a, a, b, 45);
    lemma_find_none(t, a, a, 58);
}

/// A run of visible bytes ends at the next space (or at `hi`).
proof fn lemma_next_ws_run(s: Seq<u8>, i: int, q: int, hi: int)
    requires
        0 <= i <= q <= hi <= s.len(),
        forall|k: int| i <= k < q ==> is_plain(#[trigger] s[k]),
        q == hi || s[q] == 32,
    ensures
        next_ws(s, i, hi) == q,
    decreases q - i,
{
    if i < q {
        assert(is_plain(s[i]));
        assert(ws_width(s, i) == 0);
        lemma_next_ws_run(s, i + 1, q, hi);
    } else if q < hi {
        assert(ws_width(s, q) == 1);
    }
}

/// A visible run `[a, q)`, reached from `p` directly or over one space, is
/// the next whitespace token.
proof fn lemma_token_at(s: Seq<u8>, p: int, a: int, q: int, hi: int)
    requires
        0 <= p <= a < q <= hi <= s.len(),
        p == a || (s[p] == 32 && a == p + 1),
        forall|k: int| a <= k < q ==> is_plain(#[trigger] s[k]),
        q == hi || s[q] == 32,
    ensures
        ws_tokens(s, p, hi) == seq![(a, q)] + ws_tokens(s, q, hi),
{
    assert(is_plain(s[a]));
    assert(ws_width(s, a) == 0);
    assert(skip_ws(s, a, hi) == a);
    if p < a {
        assert(ws_width(s, p) == 1);
        assert(skip_ws(s, p, hi) == skip_ws(s, a, hi));
    }
    lemma_next_ws_run(s, a, q, hi);
}

/// Nothing is left at the end.
proof fn lemma_tokens_end(s: Seq<u8>, hi: int)
    ensures
        ws_tokens(s, hi, hi) == Seq::<(int, int)>::empty(),
{
    assert(skip_ws(s, hi, hi) == hi);
}

/// The token state after `toks`, starting from `st`.
pub open spec fn fold_from(t: Seq<u8>, st: TokenState, toks: Seq<(int, int)>) -> TokenState
    decreases toks.len(),
{
    if toks.len() == 0 {
        st
    } else {
        token_step(t, fold_from(t, st, toks.drop_last()), toks.last())
    }
}

proof fn lemma_fold_from_start(t: Seq<u8>, toks: Seq<(int, int)>)
    ensures
        fold_tokens(t, toks) == fold_from(t, (None, None, None, None), toks),
    decreases toks.len(),
{
    if toks.len() > 0 {
        lemma_fold_from_start(t, toks.drop_last());
    }
}

/// Folding a token then the rest is folding the rest from the first step.
proof fn lemma_fold_from_cons(t: Seq<u8>, st: TokenState, x: (int, int), rest: Seq<(int, int)>)
    ensures
        fold_from(t, st, seq![x] + rest) == fold_from(t, token_step(t, st, x), rest),
    decreases rest.len(),
{
    if rest.len() > 0 {
        assert((seq![x] + rest).drop_last() =~= seq![x] + rest.drop_last());
        assert((seq![x] + rest).last() == rest.last());
        lemma_fold_from_cons(t, st, x, rest.drop_last());
    } else {
        assert((seq![x] + rest).drop_last() =~= Seq::<(int, int)>::empty());
        assert((seq![x] + rest).last() == x);
        assert(fold_from(t, st, Seq::<(int, int)>::empty()) == st);
    }
}

/// The written pieces of a planning stamp are visible ASCII.
proof fn lemma_pieces_plain(stamp: PlannedStamp, rep: Option<Repeater>, del: Option<Delay>)
    requires
        stamp.wf(),
        0 <= stamp.date.year,
    ensures
        plain_text(ymd_text(stamp.date)),
        plain_text(
            weekday_name(
                weekday_from_sunday(
                    stamp.date.year as int,
                    stamp.date.month as int,
                    stamp.date.day as int,
                ),
            ),
        ),
        stamp.time matches Some(tm) ==> plain_text(time_text(tm)) && time_text(tm).len() == 5,
        rep matches Some(r) ==> plain_text(repeater_text(r)),
        del matches Some(l) ==> plain_text(delay_text(l)),
{
    let d = stamp.date;
    lemma_year_text(d.year as int);
    lemma_padded_value(d.month as nat, 2);
    lemma_padded_value(d.day as nat, 2);
    let ymd = ymd_text(d);
    let yt = year_text(d.year as int);
    let m = padded(d.month as nat, 2);
    let dd = padded(d.day as nat, 2);
    assert forall|i: int| 0 <= i < ymd.len() implies '!' <= #[trigger] ymd[i] <= '~' && ymd[i] != '>' by {
        if i < yt.len() {
            assert(ymd[i] == yt[i]);
        } else if i == yt.len() || i == yt.len() + m.len() + 1 {
        } else if i < yt.len() + m.len() + 1 {
            assert(ymd[i] == m[i - yt.len() - 1]);
        } else {
            assert(ymd[i] == dd[i - yt.len() - m.len() - 2]);
        }
    }
    match stamp.time {
        Some(tm) => {
            let h = padded(tm.hour as nat, 2);
            let mm = padded(tm.minute as nat, 2);
            lemma_padded_value(tm.hour as nat, 2);
            lemma_padded_value(tm.minute as nat, 2);
            lemma_padded_len(tm.hour as nat, 2);
            lemma_padded_len(tm.minute as nat, 2);
            let tt = time_text(tm);
            assert forall|i: int| 0 <= i < tt.len() implies '!' <= #[trigger] tt[i] <= '~' && tt[i] != '>' by {
                if i < 2 {
                    assert(tt[i] == h[i]);
                } else if i > 2 {
                    assert(tt[i] == mm[i - 3]);
                }
            }
        },
        None => {},
    }
    match rep {
        Some(r) => {
            lemma_decimal_digits(r.value as nat);
            let rt = repeater_text(r);
            let dv = decimal(r.value as nat);
            let pre: int = match r.kind {
                RepeaterKind::Cumulate => 1,
                _ => 2,
            };
            assert forall|i: int| 0 <= i < rt.len() implies '!' <= #[trigger] rt[i] <= '~' && rt[i] != '>' by {
                if pre <= i < pre + dv.len() {
                    assert(rt[i] == dv[i - pre]);
                }
            }
        },
        None => {},
    }
    match del {
        Some(l) => {
            lemma_decimal_digits(l.value as nat);
            let lt = delay_text(l);
            let dv = decimal(l.value as nat);
            let pre: int = match l.kind {
                DelayKind::All => 1,
                DelayKind::First => 2,
            };
            assert forall|i: int| 0 <= i < lt.len() implies '!' <= #[trigger] lt[i] <= '~' && lt[i] != '>' by {
                if pre <= i < pre + dv.len() {
                    assert(lt[i] == dv[i - pre]);
                }
            }
        },
        None => {},
    }
}

/// ASCII text with no `>`.
pub open spec fn open_text(s: Seq<char>) -> bool {
    forall|i: int| 0 <= i < s.len() ==> '\0' <= #[trigger] s[i] <= '~' && s[i] != '>'
}

proof fn lemma_open_concat(a: Seq<char>, b: Seq<char>)
    requires
        open_text(a),
        open_text(b),
    ensures
        open_text(a + b),
{
    assert forall|i: int| 0 <= i < (a + b).len() implies '\0' <= #[trigger] (a + b)[i] <= '~' && (a
        + b)[i] != '>' by {
        if i >= a.len() {
            assert((a + b)[i] == b[i - a.len()]);
        }
    }
}

/// A piece of an ASCII text has the piece's bytes.
proof fn lemma_piece(t: Seq<u8>, text: Seq<char>, off: int, piece: Seq<char>)
    requires
        t == ascii_bytes(text),
        0 <= off,
        off + piece.len() <= text.len(),
        text.subrange(off, off + piece.len()) == piece,
    ensures
        t.subrange(off, off + piece.len()) == ascii_bytes(piece),
        forall|k: int| off <= k < off + piece.len() ==> t[k] == piece[k - off] as u8,
{
    assert forall|k: int| off <= k < off + piece.len() implies t[k] == piece[k - off] as u8 by {
        assert(piece[k - off] == text.subrange(off, off + piece.len())[k - off]);
    }
    assert(t.subrange(off, off + piece.len()) =~= ascii_bytes(piece));
}

/// A visible piece's bytes are visible.
proof fn lemma_plain_bytes(t: Seq<u8>, off: int, piece: Seq<char>)
    requires
        0 <= off,
        off + piece.len() <= t.len(),
        plain_text(piece),
        forall|k: int| off <= k < off + piece.len() ==> t[k] == piece[k - off] as u8,
    ensures
        forall|k: int| off <= k < off + piece.len() ==> is_plain(#[trigger] t[k]),
{
    assert forall|k: int| off <= k < off + piece.len() implies is_plain(#[trigger] t[k]) by {
        assert('!' <= piece[k - off] <= '~');
    }
}

/// The optional ` PIECE` that follows the weekday.
pub open spec fn spaced(p: Option<Seq<char>>) -> Seq<char> {
    match p {
        Some(x) => seq![' '] + x,
        None => Seq::empty(),
    }
}

/// One optional piece of the stamp at `t[p..)`: when present it is a space
/// then the token `[p + 1, q)`, and the tokens from `p` are that token then
/// those from `q`.
proof fn lemma_optional_token(t: Seq<u8>, text: Seq<char>, p: int, piece: Option<Seq<char>>, hi: int)
    requires
        t == ascii_bytes(text),
        0 <= p,
        p + spaced(piece).len() <= hi < t.len(),
        text.subrange(p, p + spaced(piece).len()) == spaced(piece),
        piece matches Some(x) ==> x.len() > 0 && plain_text(x),
        p + spaced(piece).len() == hi || t[p + spaced(piece).len()] == 32,
    ensures
        piece matches Some(x) ==> ws_tokens(t, p, hi) == seq![(p + 1, p + 1 + x.len())] + ws_tokens(
            t,
            p + 1 + x.len(),
            hi,
        ) && t.subrange(p + 1, p + 1 + x.len()) == ascii_bytes(x),
{
    match piece {
        Some(x) => {
            let q = p + 1 + x.len();
            lemma_piece(t, text, p, spaced(piece));
            assert(text.subrange(p + 1, q) =~= spaced(piece).subrange(1, 1 + x.len() as int));
            assert(spaced(piece).subrange(1, 1 + x.len() as int) =~= x);
            lemma_piece(t, text, p + 1, x);
            lemma_plain_bytes(t, p + 1, x);
            assert(t[p] == spaced(piece)[0] as u8);
            lemma_token_at(t, p, p + 1, q, hi);
        },
        None => {},
    }
}

/// The time, repeater and delay pieces of a stamp, as written.
pub open spec fn time_piece(stamp: PlannedStamp) -> Option<Seq<char>> {
    match stamp.time {
        Some(tm) => Some(time_text(tm)),
        None => None,
    }
}

pub open spec fn repeater_piece(rep: Option<Repeater>) -> Option<Seq<char>> {
    match rep {
        Some(r) => Some(repeater_text(r)),
        None => None,
    }
}

pub open spec fn delay_piece(del: Option<Delay>) -> Option<Seq<char>> {
    match del {
        Some(l) => Some(delay_text(l)),
        None => None,
    }
}

/// The weekday name written for a date.
pub open spec fn weekday_of(d: Date) -> Seq<char> {
    weekday_name(weekday_from_sunday(d.year as int, d.month as int, d.day as int))
}

/// Everything a written stamp holds before its closing `>`.
pub open spec fn stamp_body(stamp: PlannedStamp, rep: Option<Repeater>, del: Option<Delay>) -> Seq<char> {
    seq!['<'] + ymd_text(stamp.date) + seq![' '] + weekday_of(stamp.date) + spaced(time_piece(stamp))
        + spaced(repeater_piece(rep)) + spaced(delay_piece(del))
}

/// Where the date token ends.
pub open spec fn date_end(stamp: PlannedStamp) -> int {
    1 + ymd_text(stamp.date).len() as int
}

/// Where the optional time piece starts.
pub open spec fn time_at(stamp: PlannedStamp) -> int {
    date_end(stamp) + 4
}

/// Where the optional repeater piece starts.
pub open spec fn repeater_at(stamp: PlannedStamp) -> int {
    time_at(stamp) + spaced(time_piece(stamp)).len()
}

/// Where the optional delay piece starts.
pub open spec fn delay_at(stamp: PlannedStamp, rep: Option<Repeater>) -> int {
    repeater_at(stamp) + spaced(repeater_piece(rep)).len()
}

/// Where the closing `>` stands.
pub open spec fn close_at(stamp: PlannedStamp, rep: Option<Repeater>, del: Option<Delay>) -> int {
    delay_at(stamp, rep) + spaced(delay_piece(del)).len()
}

/// A written stamp is ASCII: its bytes are its characters, and `>` only
/// closes it.
proof fn lemma_stamp_bytes(stamp: PlannedStamp, rep: Option<Repeater>, del: Option<Delay>)
    requires
        stamp.wf(),
        0 <= stamp.date.year,
    ensures
        planning_text(stamp, rep, del) == stamp_body(stamp, rep, del) + seq!['>'],
        open_text(stamp_body(stamp, rep, del)),
        encode_utf8(planning_text(stamp, rep, del)) == ascii_bytes(planning_text(stamp, rep, del)),
        stamp_body(stamp, rep, del).len() == close_at(stamp, rep, del),
        weekday_of(stamp.date).len() == 3,
{
    let d = stamp.date;
    lemma_pieces_plain(stamp, rep, del);
    let ymd = ymd_text(d);
    let wk = weekday_of(d);
    let to = spaced(time_piece(stamp));
    let ro = spaced(repeater_piece(rep));
    let lo = spaced(delay_piece(del));
    let text = planning_text(stamp, rep, del);
    let body = stamp_body(stamp, rep, del);
    assert(date_text(d) =~= ymd + seq![' '] + wk);
    assert(text =~= body + seq!['>']);
    assert(open_text(seq!['<'])) by {
        assert(seq!['<'][0] == '<');
    }
    assert(open_text(seq![' '])) by {
        assert(seq![' '][0] == ' ');
    }
    assert(open_text(to)) by {
        match stamp.time {
            Some(tm) => lemma_open_concat(seq![' '], time_text(tm)),
            None => {},
        }
    }
    assert(open_text(ro)) by {
        match rep {
            Some(r) => lemma_open_concat(seq![' '], repeater_text(r)),
            None => {},
        }
    }
    assert(open_text(lo)) by {
        match del {
            Some(l) => lemma_open_concat(seq![' '], delay_text(l)),
            None => {},
        }
    }
    lemma_open_concat(seq!['<'], ymd);
    lemma_open_concat(seq!['<'] + ymd, seq![' ']);
    lemma_open_concat(seq!['<'] + ymd + seq![' '], wk);
    lemma_open_concat(seq!['<'] + ymd + seq![' '] + wk, to);
    lemma_open_concat(seq!['<'] + ymd + seq![' '] + wk + to, ro);
    lemma_open_concat(seq!['<'] + ymd + seq![' '] + wk + to + ro, lo);
    assert(is_ascii_chars(text)) by {
        assert forall|i: int| 0 <= i < text.len() implies '\0' <= #[trigger] text[i] <= '\u{7f}' by {
            if i < body.len() {
                assert(text[i] == body[i]);
            }
        }
    }
    is_ascii_chars_encode_utf8(text);
    assert(encode_utf8(text) =~= ascii_bytes(text));
}

/// The first `>` of a written stamp is its last byte.
proof fn lemma_stamp_close(t: Seq<u8>, text: Seq<char>, body: Seq<char>)
    requires
        t == ascii_bytes(text),
        text == body + seq!['>'],
        open_text(body),
    ensures
        find_byte(t, 0, t.len() as int, 62) == body.len(),
        t.len() == body.len() + 1,
{
    assert forall|k: int| 0 <= k < body.len() implies t[k] != 62 by {
        assert(t[k] == text[k] as u8);
        assert(text[k] == body[k]);
    }
    assert(t[body.len() as int] == text[body.len() as int] as u8);
    lemma_find_at(t, 0, body.len() as int, t.len() as int, 62);
}

/// The whitespace tokens of a written stamp: the date, the weekday, then
/// the time, repeater and delay that were written.
#[verifier::rlimit(50)]
proof fn lemma_stamp_tokens(t: Seq<u8>, stamp: PlannedStamp, rep: Option<Repeater>, del: Option<Delay>)
    requires
        stamp.wf(),
        0 <= stamp.date.year,
        t == ascii_bytes(planning_text(stamp, rep, del)),
    ensures
        ws_tokens(t, 1, close_at(stamp, rep, del)) == seq![(1, date_end(stamp))] + (seq![
            (date_end(stamp) + 1, time_at(stamp)),
        ] + ws_tokens(t, time_at(stamp), close_at(stamp, rep, del))),
        t.subrange(1, date_end(stamp)) == ascii_bytes(ymd_text(stamp.date)),
        t.subrange(date_end(stamp) + 1, time_at(stamp)) == ascii_bytes(weekday_of(stamp.date)),
        stamp.time matches Some(tm) ==> ws_tokens(t, time_at(stamp), close_at(stamp, rep, del))
            == seq![(time_at(stamp) + 1, repeater_at(stamp))] + ws_tokens(
            t,
            repeater_at(stamp),
            close_at(stamp, rep, del),
        ) && t.subrange(time_at(stamp) + 1, repeater_at(stamp)) == ascii_bytes(time_text(tm)),
        rep matches Some(r) ==> ws_tokens(t, repeater_at(stamp), close_at(stamp, rep, del)) == seq![
            (repeater_at(stamp) + 1, delay_at(stamp, rep)),
        ] + ws_tokens(t, delay_at(stamp, rep), close_at(stamp, rep, del)) && t.subrange(
            repeater_at(stamp) + 1,
            delay_at(stamp, rep),
        ) == ascii_bytes(repeater_text(r)),
        del matches Some(l) ==> ws_tokens(t, delay_at(stamp, rep), close_at(stamp, rep, del)) == seq![
            (delay_at(stamp, rep) + 1, close_at(stamp, rep, del)),
        ] + ws_tokens(t, close_at(stamp, rep, del), close_at(stamp, rep, del)) && t.subrange(
            delay_at(stamp, rep) + 1,
            close_at(stamp, rep, del),
        ) == ascii_bytes(delay_text(l)),
        time_piece(stamp) is None ==> time_at(stamp) == repeater_at(stamp),
        repeater_piece(rep) is None ==> repeater_at(stamp) == delay_at(stamp, rep),
        delay_piece(del) is None ==> delay_at(stamp, rep) == close_at(stamp, rep, del),
        ws_tokens(t, close_at(stamp, rep, del), close_at(stamp, rep, del)) == Seq::<(int, int)>::empty(),
{
    lemma_stamp_bytes(stamp, rep, del);
    lemma_pieces_plain(stamp, rep, del);
    let text = planning_text(stamp, rep, del);
    let body = stamp_body(stamp, rep, del);
    let ymd = ymd_text(stamp.date);
    let wk = weekday_of(stamp.date);
    let to = spaced(time_piece(stamp));
    let ro = spaced(repeater_piece(rep));
    let lo = spaced(delay_piece(del));
    let pd = date_end(stamp);
    let p0 = time_at(stamp);
    let p1 = repeater_at(stamp);
    let p2 = delay_at(stamp, rep);
    let p3 = close_at(stamp, rep, del);
    lemma_year_text(stamp.date.year as int);
    assert(text.subrange(1, pd) =~= ymd);
    lemma_piece(t, text, 1, ymd);
    lemma_plain_bytes(t, 1, ymd);
    assert(text.subrange(pd + 1, p0) =~= wk);
    lemma_piece(t, text, pd + 1, wk);
    lemma_plain_bytes(t, pd + 1, wk);
    assert(t[pd] == text[pd] as u8);
    assert(text[pd] == ' ');
    assert(text.subrange(p0, p1) =~= to);
    assert(text.subrange(p1, p2) =~= ro);
    assert(text.subrange(p2, p3) =~= lo);
    if p0 < p3 {
        assert(t[p0] == text[p0] as u8);
        if to.len() > 0 {
            assert(text[p0] == to[0]);
        } else if ro.len() > 0 {
            assert(text[p0] == ro[0]);
        } else {
            assert(text[p0] == lo[0]);
        }
    }
    if p1 < p3 {
        assert(t[p1] == text[p1] as u8);
        if ro.len() > 0 {
            assert(text[p1] == ro[0]);
        } else {
            assert(text[p1] == lo[0]);
        }
    }
    if p2 < p3 {
        assert(t[p2] == text[p2] as u8);
        assert(text[p2] == lo[0]);
    }
    lemma_token_at(t, 1, 1, pd, p3);
    lemma_token_at(t, pd, pd + 1, p0, p3);
    lemma_optional_token(t, text, p0, time_piece(stamp), p3);
    lemma_optional_token(t, text, p1, repeater_piece(rep), p3);
    lemma_optional_token(t, text, p2, delay_piece(del), p3);
    lemma_tokens_end(t, p3);
}

/// The delay piece, if written, sets the delay.
proof fn lemma_fold_delay(t: Seq<u8>, stamp: PlannedStamp, rep: Option<Repeater>, del: Option<Delay>)
    requires
        stamp.wf(),
        0 <= stamp.date.year,
        del matches Some(l) ==> l.value > 0,
        t == ascii_bytes(planning_text(stamp, rep, del)),
    ensures
        fold_from(t, (stamp.time, None, rep, None), ws_tokens(t, delay_at(stamp, rep), close_at(stamp, rep, del)))
            == (stamp.time, None::<Time>, rep, del),
{
    lemma_stamp_tokens(t, stamp, rep, del);
    let p2 = delay_at(stamp, rep);
    let p3 = close_at(stamp, rep, del);
    let st2: TokenState = (stamp.time, None, rep, None);
    match del {
        Some(l) => {
            assert(p3 == p2 + 1 + delay_text(l).len());
            lemma_delay_token(t, p2 + 1, l);
            lemma_fold_from_cons(t, st2, (p2 + 1, p3), Seq::<(int, int)>::empty());
        },
        None => {},
    }
}

/// The repeater piece, if written, sets the repeater.
proof fn lemma_fold_repeater(t: Seq<u8>, stamp: PlannedStamp, rep: Option<Repeater>, del: Option<Delay>)
    requires
        stamp.wf(),
        0 <= stamp.date.year,
        rep matches Some(r) ==> r.value > 0,
        del matches Some(l) ==> l.value > 0,
        t == ascii_bytes(planning_text(stamp, rep, del)),
    ensures
        fold_from(t, (stamp.time, None, None, None), ws_tokens(t, repeater_at(stamp), close_at(stamp, rep, del)))
            == (stamp.time, None::<Time>, rep, del),
{
    lemma_stamp_tokens(t, stamp, rep, del);
    lemma_fold_delay(t, stamp, rep, del);
    let p1 = repeater_at(stamp);
    let p2 = delay_at(stamp, rep);
    let p3 = close_at(stamp, rep, del);
    let st1: TokenState = (stamp.time, None, None, None);
    match rep {
        Some(r) => {
            assert(p2 == p1 + 1 + repeater_text(r).len());
            lemma_repeater_token(t, p1 + 1, r);
            lemma_fold_from_cons(t, st1, (p1 + 1, p2), ws_tokens(t, p2, p3));
        },
        None => {},
    }
}

/// The time piece, if written, sets the time.
proof fn lemma_fold_time(t: Seq<u8>, stamp: PlannedStamp, rep: Option<Repeater>, del: Option<Delay>)
    requires
        stamp.wf(),
        0 <= stamp.date.year,
        rep matches Some(r) ==> r.value > 0,
        del matches Some(l) ==> l.value > 0,
        t == ascii_bytes(planning_text(stamp, rep, del)),
    ensures
        fold_from(t, (None, None, None, None), ws_tokens(t, time_at(stamp), close_at(stamp, rep, del)))
            == (stamp.time, None::<Time>, rep, del),
{
    lemma_stamp_tokens(t, stamp, rep, del);
    lemma_pieces_plain(stamp, rep, del);
    lemma_fold_repeater(t, stamp, rep, del);
    let p0 = time_at(stamp);
    let p1 = repeater_at(stamp);
    let p3 = close_at(stamp, rep, del);
    let init: TokenState = (None, None, None, None);
    match stamp.time {
        Some(tm) => {
            assert(p1 == p0 + 6);
            lemma_time_token(t, p0 + 1, tm);
            lemma_fold_from_cons(t, init, (p0 + 1, p1), ws_tokens(t, p1, p3));
        },
        None => {},
    }
}

/// Folding the tokens after the date gives the written time, repeater and
/// delay.
proof fn lemma_stamp_fold(t: Seq<u8>, stamp: PlannedStamp, rep: Option<Repeater>, del: Option<Delay>)
    requires
        stamp.wf(),
        0 <= stamp.date.year,
        rep matches Some(r) ==> r.value > 0,
        del matches Some(l) ==> l.value > 0,
        t == ascii_bytes(planning_text(stamp, rep, del)),
    ensures
        fold_tokens(t, ws_tokens(t, 1, close_at(stamp, rep, del)).drop_first()) == (
            stamp.time,
            None::<Time>,
            rep,
            del,
        ),
{
    let d = stamp.date;
    lemma_stamp_tokens(t, stamp, rep, del);
    lemma_stamp_bytes(stamp, rep, del);
    lemma_fold_time(t, stamp, rep, del);
    let pd = date_end(stamp);
    let p0 = time_at(stamp);
    let p3 = close_at(stamp, rep, del);
    lemma_weekday_token(t, pd + 1, weekday_from_sunday(d.year as int, d.month as int, d.day as int));
    let init: TokenState = (None, None, None, None);
    let tail1 = ws_tokens(t, p0, p3);
    let toks = ws_tokens(t, 1, p3);
    assert(toks.drop_first() =~= seq![(pd + 1, p0)] + tail1);
    lemma_fold_from_cons(t, init, (pd + 1, p0), tail1);
    lemma_fold_from_start(t, toks.drop_first());
}

/// The frame of a written stamp: `<` first, `>` only last, and the date as
/// the first token.
proof fn lemma_stamp_head(stamp: PlannedStamp, rep: Option<Repeater>, del: Option<Delay>)
    requires
        stamp.wf(),
        0 <= stamp.date.year,
    ensures
        ({
            let t = encode_utf8(planning_text(stamp, rep, del));
            let p3 = close_at(stamp, rep, del);
            &&& t == ascii_bytes(planning_text(stamp, rep, del))
            &&& t.len() == p3 + 1
            &&& t[0] == 60
            &&& find_byte(t, 0, t.len() as int, 62) == p3
            &&& ws_tokens(t, 1, p3).len() > 0
            &&& ws_tokens(t, 1, p3)[0] == (1int, date_end(stamp))
            &&& date_spec(t, 1, date_end(stamp)) == Some(stamp.date)
        }),
{
    let text = planning_text(stamp, rep, del);
    let body = stamp_body(stamp, rep, del);
    lemma_stamp_bytes(stamp, rep, del);
    let t = encode_utf8(text);
    lemma_stamp_close(t, text, body);
    lemma_stamp_tokens(t, stamp, rep, del);
    lemma_date_token(t, 1, stamp.date);
    assert(t[0] == text[0] as u8);
}

/// A single active stamp spanning all of `t`, whose first token is the date
/// and whose other tokens fold to `st`, reads as those fields.
proof fn lemma_parse_frame(t: Seq<u8>, p3: int, pd: int, d: Date, st: TokenState)
    requires
        t.len() == p3 + 1,
        t[0] == 60,
        find_byte(t, 0, t.len() as int, 62) == p3,
        ws_tokens(t, 1, p3).len() > 0,
        ws_tokens(t, 1, p3)[0] == (1int, pd),
        date_spec(t, 1, pd) == Some(d),
        fold_tokens(t, ws_tokens(t, 1, p3).drop_first()) == st,
    ensures
        parse_at_spec(t, 0) == Some(((true, d, st.0, None::<Date>, st.1, st.2, st.3), t.len() as int)),
{
    assert(parse_one_spec(t, 0) == Some(((true, d, st.0, None::<Date>, st.1, st.2, st.3), p3 + 1)));
}

/// A planning stamp as written by `format_planning_timestamp` reads back,
/// with `parse_at`, as exactly what was written: an active stamp on its
/// date, at its time, with its repeater and delay, and no end. (A year
/// before 0 is written with a leading `-` that the date reader takes for a
/// separator, and a zero count is written but not read as a cookie; those
/// are left out.)
pub proof fn lemma_planning_stamp_reparses(stamp: PlannedStamp, rep: Option<Repeater>, del: Option<Delay>)
    requires
        stamp.wf(),
        0 <= stamp.date.year,
        rep matches Some(r) ==> r.value > 0,
        del matches Some(l) ==> l.value > 0,
    ensures
        parse_at_spec(encode_utf8(planning_text(stamp, rep, del)), 0) == Some(
            (
                (true, stamp.date, stamp.time, None::<Date>, None::<Time>, rep, del),
                encode_utf8(planning_text(stamp, rep, del)).len() as int,
            ),
        ),
{
    let t = encode_utf8(planning_text(stamp, rep, del));
    lemma_stamp_head(stamp, rep, del);
    lemma_stamp_fold(t, stamp, rep, del);
    lemma_parse_frame(t, close_at(stamp, rep, del), date_end(stamp), stamp.date, (stamp.time, None::<Time>, rep, del));
}

/// Every cookie a reader finds has a non-zero count.
pub open spec fn counts_nonzero(rep: Option<Repeater>, del: Option<Delay>) -> bool {
    &&& rep matches Some(r) ==> r.value > 0
    &&& del matches Some(l) ==> l.value > 0
}

proof fn lemma_interval_nonzero(t: Seq<u8>, a: int, b: int)
    ensures
        interval_spec(t, a, b) matches Some((v, u)) ==> v > 0,
{
    if b > a {
        lemma_parse_bounds(t, a, b - 1, 0, 0);
    }
}

proof fn lemma_fold_nonzero(t: Seq<u8>, toks: Seq<(int, int)>)
    ensures
        counts_nonzero(fold_tokens(t, toks).2, fold_tokens(t, toks).3),
    decreases toks.len(),
{
    if toks.len() > 0 {
        lemma_fold_nonzero(t, toks.drop_last());
        let x = toks.last();
        let (a, b) = x;
        lemma_interval_nonzero(t, a + 1, b);
        lemma_interval_nonzero(t, a + 2, b);
    }
}

/// An interval cookie (bare, as a repeater or as a delay) is read only
/// with a count of at least 1, and its unit is the letter it ends with.
pub proof fn lemma_interval_cookie_shape(t: Seq<u8>, a: int, b: int)
    ensures
        interval_spec(t, a, b) matches Some((v, u)) ==> v >= 1 && a < b && unit_of(t[b - 1])
            == Some(u),
        repeater_spec(t, a, b) matches Some(r) ==> r.value >= 1 && a < b && unit_of(t[b - 1])
            == Some(r.unit),
        delay_spec(t, a, b) matches Some(d) ==> d.value >= 1 && a < b && unit_of(t[b - 1])
            == Some(d.unit),
{
    lemma_interval_nonzero(t, a, b);
    lemma_interval_nonzero(t, a + 1, b);
    lemma_interval_nonzero(t, a + 2, b);
}

/// A timestamp reads a repeater or delay only with a non-zero count: a
/// `+0d` cookie is no repeater.
pub proof fn lemma_parsed_cookies_nonzero(t: Seq<u8>, s: int)
    ensures
        parse_at_spec(t, s) matches Some((f, c)) ==> counts_nonzero(f.5, f.6),
{
    if 0 <= s < t.len() && (t[s] == 60 || t[s] == 91) {
        let close: u8 = if t[s] == 60 {
            62
        } else {
            93
        };
        let cp = find_byte(t, s, t.len() as int, close);
        let toks = ws_tokens(t, s + 1, cp);
        lemma_fold_nonzero(t, toks.drop_first());
    }
    match parse_one_spec(t, s) {
        Some((f, c)) => {
            let k = s + c;
            if 0 <= k + 2 < t.len() && (t[k + 2] == 60 || t[k + 2] == 91) {
                let close: u8 = if t[k + 2] == 60 {
                    62
                } else {
                    93
                };
                let cp = find_byte(t, k + 2, t.len() as int, close);
                let toks = ws_tokens(t, k + 3, cp);
                lemma_fold_nonzero(t, toks.drop_first());
            }
        },
        None => {},
    }
}

/// `text` stands in `s` at `k`.
pub open spec fn holds_at(s: Seq<char>, k: int, text: Seq<char>) -> bool {
    0 <= k && k + text.len() <= s.len() && s.subrange(k, k + text.len()) == text
}

/// The stamp `text` reads back, with `parse_at`, as an active stamp on the
/// stamp's date and time.
pub open spec fn reads_back_as(text: Seq<char>, stamp: PlannedStamp) -> bool {
    parse_at_spec(encode_utf8(text), 0) matches Some((f, c)) && f.0 && f.1 == stamp.date && f.2
        == stamp.time && c == encode_utf8(text).len()
}

/// Setting a planning stamp writes it so that it reads back: the text the
/// edit inserts holds a stamp that `parse_at` reads as the requested date
/// and time (with the cookies carried over from a replaced stamp). Years
/// before 0 are left out, as their stamps do not read back.
pub proof fn lemma_set_planning_reads_back(t: Seq<u8>, offset: int, kind: PlanningKind, stamp: PlannedStamp)
    requires
        stamp.wf(),
        0 <= stamp.date.year,
    ensures
        exists|k: int, rep: Option<Repeater>, del: Option<Delay>|
            #[trigger] holds_at(planning_edit_spec(t, offset, kind, Some(stamp)).2, k, planning_text(stamp, rep, del))
                && reads_back_as(planning_text(stamp, rep, del), stamp),
{
    let ins = planning_edit_spec(t, offset, kind, Some(stamp)).2;
    let lo = planning_line_start(t, offset);
    let hi = planning_line_end(t, offset);
    let none_text = planning_text(stamp, None, None);
    let n: int = none_text.len() as int;
    lemma_planning_stamp_reparses(stamp, None, None);
    if planning_line_spec(t, lo, hi) {
        let w = keyword_bytes_of(kind);
        match entry_spec(t, lo, hi, w) {
            Some((kw, Some((ts, te, rep, del)))) => {
                let ks = skip_blanks(t, kw + w.len() + 1, hi);
                lemma_parsed_cookies_nonzero(t.subrange(ks, hi), 0);
                lemma_planning_stamp_reparses(stamp, rep, del);
                assert(ins == planning_text(stamp, rep, del));
                assert(holds_at(ins, 0, planning_text(stamp, rep, del))) by {
                    assert(ins.subrange(0, ins.len() as int) =~= ins);
                }
            },
            Some((kw, None)) => {
                assert(ins == seq![' '] + none_text);
                assert(holds_at(ins, 1, none_text)) by {
                    assert(ins.subrange(1, 1 + n) =~= none_text);
                }
            },
            None => {
                let kp = keyword_prefix(kind);
                let m: int = kp.len() as int;
                assert(ins == seq![' '] + kp + none_text);
                assert(holds_at(ins, 1 + m, none_text)) by {
                    assert(ins.subrange(1 + m, 1 + m + n) =~= none_text);
                }
            },
        }
    } else {
        let hle = headline_line_end(t, offset);
        let kp = keyword_prefix(kind);
        let m: int = kp.len() as int;
        if hle < t.len() {
            assert(ins == kp + none_text + newline_text(t, hle));
            assert(holds_at(ins, m, none_text)) by {
                assert(ins.subrange(m, m + n) =~= none_text);
            }
        } else {
            let nl = newline_text(t, hle);
            let q: int = nl.len() as int;
            assert(ins == nl + kp + none_text);
            assert(holds_at(ins, q + m, none_text)) by {
                assert(ins.subrange(q + m, q + m + n) =~= none_text);
            }
        }
    }
}


// ---------------------------------------------------------------------------
// Setting a stamp on a headline without a planning line, then removing it,
// gives the text back.
// ---------------------------------------------------------------------------

// ---------------------------------------------------------------------------
// A carriage return after a stamp changes nothing the stamp reader sees.
// ---------------------------------------------------------------------------

proof fn lemma_cr_find(t: Seq<u8>, a: int, b: int, c: u8)
    requires
        0 <= a,
        b <= t.len(),
    ensures
        find_byte(t.push(13), a, b, c) == find_byte(t, a, b, c),
    decreases b - a,
{
    if a < b && t[a] != c {
        assert(t.push(13)[a] == t[a]);
        lemma_cr_find(t, a + 1, b, c);
    } else if a < b {
        assert(t.push(13)[a] == t[a]);
    }
}

proof fn lemma_cr_digits(t: Seq<u8>, a: int, b: int)
    requires
        0 <= a,
        b <= t.len(),
    ensures
        digits_value(t.push(13), a, b) == digits_value(t, a, b),
        all_digits(t.push(13), a, b) == all_digits(t, a, b),
    decreases b - a,
{
    let u = t.push(13);
    if b > a {
        lemma_cr_digits(t, a, b - 1);
        assert(u[b - 1] == t[b - 1]);
    }
    assert(all_digits(u, a, b) == all_digits(t, a, b)) by {
        if all_digits(t, a, b) {
            assert forall|k: int| a <= k < b implies is_digit(#[trigger] u[k]) by {
                assert(u[k] == t[k]);
            }
        }
        if all_digits(u, a, b) {
            assert forall|k: int| a <= k < b implies is_digit(#[trigger] t[k]) by {
                assert(u[k] == t[k]);
            }
        }
    }
}

proof fn lemma_cr_numbers(t: Seq<u8>, a: int, b: int)
    requires
        0 <= a,
        b <= t.len(),
    ensures
        parse_u32_spec(t.push(13), a, b) == parse_u32_spec(t, a, b),
        parse_signed_spec(t.push(13), a, b, 0x7FFF_FFFF, 0x8000_0000) == parse_signed_spec(
            t,
            a,
            b,
            0x7FFF_FFFF,
            0x8000_0000,
        ),
{
    let u = t.push(13);
    lemma_cr_digits(t, a, b);
    lemma_cr_digits(t, a + 1, b);
    if a < b {
        assert(u[a] == t[a]);
    }
}

proof fn lemma_cr_date(t: Seq<u8>, a: int, b: int)
    requires
        0 <= a <= b <= t.len(),
    ensures
        date_spec(t.push(13), a, b) == date_spec(t, a, b),
{
    lemma_cr_find(t, a, b, 45);
    lemma_find_byte(t, a, b, 45);
    let p1 = find_byte(t, a, b, 45);
    if p1 < b {
        lemma_cr_find(t, p1 + 1, b, 45);
        lemma_find_byte(t, p1 + 1, b, 45);
        let p2 = find_byte(t, p1 + 1, b, 45);
        lemma_cr_numbers(t, a, p1);
        lemma_cr_numbers(t, p1 + 1, p2);
        lemma_cr_numbers(t, p2 + 1, b);
    }
}

proof fn lemma_cr_hm(t: Seq<u8>, a: int, b: int)
    requires
        0 <= a <= b <= t.len(),
    ensures
        hm_spec(t.push(13), a, b) == hm_spec(t, a, b),
{
    lemma_cr_find(t, a, b, 58);
    lemma_find_byte(t, a, b, 58);
    let p = find_byte(t, a, b, 58);
    lemma_cr_numbers(t, a, p);
    lemma_cr_numbers(t, p + 1, b);
}

proof fn lemma_cr_token(t: Seq<u8>, st: TokenState, a: int, b: int)
    requires
        0 <= a <= b <= t.len(),
    ensures
        token_step(t.push(13), st, (a, b)) == token_step(t, st, (a, b)),
{
    let u = t.push(13);
    lemma_cr_find(t, a, b, 45);
    lemma_find_byte(t, a, b, 45);
    let q = find_byte(t, a, b, 45);
    lemma_cr_hm(t, a, q);
    if q < b {
        lemma_cr_hm(t, q + 1, b);
    }
    lemma_cr_hm(t, a, b);
    assert(time_token_spec(u, a, b) == time_token_spec(t, a, b));
    if b > a {
        assert(u[a] == t[a] && u[b - 1] == t[b - 1]);
    }
    if b > a + 1 {
        assert(u[a + 1] == t[a + 1]);
    }
    lemma_cr_numbers(t, a, b - 1);
    lemma_cr_numbers(t, a + 1, b - 1);
    lemma_cr_numbers(t, a + 2, b - 1);
    assert(interval_spec(u, a, b) == interval_spec(t, a, b));
    assert(interval_spec(u, a + 1, b) == interval_spec(t, a + 1, b));
    assert(interval_spec(u, a + 2, b) == interval_spec(t, a + 2, b));
    assert(repeater_spec(u, a, b) == repeater_spec(t, a, b));
    assert(delay_spec(u, a, b) == delay_spec(t, a, b));
}

proof fn lemma_cr_fold(t: Seq<u8>, toks: Seq<(int, int)>)
    requires
        forall|k: int| 0 <= k < toks.len() ==> 0 <= (#[trigger] toks[k]).0 <= toks[k].1 <= t.len(),
    ensures
        fold_tokens(t.push(13), toks) == fold_tokens(t, toks),
    decreases toks.len(),
{
    if toks.len() > 0 {
        lemma_cr_fold(t, toks.drop_last());
        let x = toks.last();
        assert(toks[toks.len() - 1] == x);
        lemma_cr_token(t, fold_tokens(t, toks.drop_last()), x.0, x.1);
    }
}

proof fn lemma_cr_ws(t: Seq<u8>, i: int)
    requires
        i < t.len(),
    ensures
        ws_width(t.push(13), i) == ws_width(t, i),
{
    let u = t.push(13);
    if 0 <= i {
        assert(u[i] == t[i]);
        if i + 1 < t.len() {
            assert(u[i + 1] == t[i + 1]);
        }
        if i + 2 < t.len() {
            assert(u[i + 2] == t[i + 2]);
        }
        if i + 1 == t.len() {
            assert(u[i + 1] == 13);
        }
        if i + 2 == t.len() {
            assert(u[i + 1] == t[i + 1]);
            assert(u[i + 2] == 13);
        }
    }
}

proof fn lemma_cr_skip(t: Seq<u8>, i: int, hi: int)
    requires
        hi <= t.len(),
    ensures
        skip_ws(t.push(13), i, hi) == skip_ws(t, i, hi),
    decreases hi - i,
{
    if i < hi {
        lemma_cr_ws(t, i);
        if ws_in(t, i, hi) {
            lemma_cr_skip(t, i + ws_width(t, i), hi);
        }
    }
}

proof fn lemma_cr_next(t: Seq<u8>, i: int, hi: int)
    requires
        hi <= t.len(),
    ensures
        next_ws(t.push(13), i, hi) == next_ws(t, i, hi),
    decreases hi - i,
{
    if i < hi {
        lemma_cr_ws(t, i);
        if !ws_in(t, i, hi) {
            lemma_cr_next(t, i + 1, hi);
        }
    }
}

proof fn lemma_cr_tokens(t: Seq<u8>, i: int, hi: int)
    requires
        hi <= t.len(),
    ensures
        ws_tokens(t.push(13), i, hi) == ws_tokens(t, i, hi),
    decreases hi - i,
{
    lemma_cr_skip(t, i, hi);
    let a = skip_ws(t, i, hi);
    if a < hi && a >= i {
        lemma_cr_next(t, a, hi);
        let b = next_ws(t, a, hi);
        if b > a && b <= hi {
            lemma_cr_tokens(t, b, hi);
        }
    }
}

proof fn lemma_tokens_inside(t: Seq<u8>, i: int, hi: int)
    requires
        0 <= i,
    ensures
        forall|k: int|
            0 <= k < ws_tokens(t, i, hi).len() ==> i <= (#[trigger] ws_tokens(t, i, hi)[k]).0 <= ws_tokens(
                t,
                i,
                hi,
            )[k].1 <= hi,
    decreases hi - i,
{
    let a = skip_ws(t, i, hi);
    if a < hi && a >= i {
        let b = next_ws(t, a, hi);
        if b > a && b <= hi {
            lemma_tokens_inside(t, b, hi);
            let rest = ws_tokens(t, b, hi);
            assert(ws_tokens(t, i, hi) == seq![(a, b)] + rest);
            assert forall|k: int| 0 <= k < ws_tokens(t, i, hi).len() implies i <= (
            #[trigger] ws_tokens(t, i, hi)[k]).0 <= ws_tokens(t, i, hi)[k].1 <= hi by {
                if k > 0 {
                    assert(ws_tokens(t, i, hi)[k] == rest[k - 1]);
                }
            }
        }
    }
}

/// A stamp that the reader takes whole reads the same with a carriage
/// return after it.
proof fn lemma_cr_stamp(t: Seq<u8>)
    requires
        parse_one_spec(t, 0) matches Some((f, c)) && c == t.len(),
    ensures
        parse_at_spec(t.push(13), 0) == parse_at_spec(t, 0),
        parse_at_spec(t, 0) == parse_one_spec(t, 0),
{
    let u = t.push(13);
    let n = t.len() as int;
    assert(u[0] == t[0]);
    let close: u8 = if t[0] == 60 { 62 } else { 93 };
    let cp = find_byte(t, 0, n, close);
    lemma_find_byte(t, 0, n, close);
    assert(u[cp] == t[cp]);
    assert forall|k: int| 0 <= k < cp implies u[k] != close by {
        assert(u[k] == t[k]);
    }
    lemma_find_at(u, 0, cp, n + 1, close);
    lemma_cr_tokens(t, 1, cp);
    lemma_tokens_inside(t, 1, cp);
    let toks = ws_tokens(t, 1, cp);
    if toks.len() > 0 {
        assert(0 <= toks[0].0 <= toks[0].1 <= n);
        lemma_cr_date(t, toks[0].0, toks[0].1);
        let rest = toks.drop_first();
        assert forall|k: int| 0 <= k < rest.len() implies 0 <= (#[trigger] rest[k]).0 <= rest[k].1
            <= t.len() by {
            assert(rest[k] == toks[k + 1]);
        }
        lemma_cr_fold(t, rest);
    }
}

/// The text `t` with the edit `e` applied: bytes before `e.0`, the inserted
/// text, bytes from `e.1` on.
pub open spec fn apply_edit(t: Seq<u8>, e: (int, int, Seq<char>)) -> Seq<u8> {
    t.subrange(0, e.0) + encode_utf8(e.2) + t.subrange(e.1, t.len() as int)
}

/// Printable ASCII, space included: no line breaks.
pub open spec fn line_chars(s: Seq<char>) -> bool {
    forall|i: int| 0 <= i < s.len() ==> ' ' <= #[trigger] s[i] <= '~'
}

proof fn lemma_line_concat(a: Seq<char>, b: Seq<char>)
    requires
        line_chars(a),
        line_chars(b),
    ensures
        line_chars(a + b),
{
    assert forall|i: int| 0 <= i < (a + b).len() implies ' ' <= #[trigger] (a + b)[i] <= '~' by {
        if i >= a.len() {
            assert((a + b)[i] == b[i - a.len()]);
        }
    }
}

proof fn lemma_plain_line(s: Seq<char>)
    requires
        plain_text(s),
    ensures
        line_chars(s),
{
}

/// A stamp without cookies is one line of printable ASCII.
proof fn lemma_stamp_line(stamp: PlannedStamp)
    requires
        stamp.wf(),
        0 <= stamp.date.year,
    ensures
        line_chars(planning_text(stamp, None, None)),
{
    lemma_pieces_plain(stamp, None, None);
    let d = stamp.date;
    let wk = weekday_of(d);
    assert(date_text(d) =~= ymd_text(d) + seq![' '] + wk);
    assert(line_chars(seq!['<'])) by {
        assert(seq!['<'][0] == '<');
    }
    assert(line_chars(seq![' '])) by {
        assert(seq![' '][0] == ' ');
    }
    assert(line_chars(seq!['>'])) by {
        assert(seq!['>'][0] == '>');
    }
    lemma_plain_line(ymd_text(d));
    lemma_plain_line(wk);
    lemma_line_concat(ymd_text(d), seq![' ']);
    lemma_line_concat(ymd_text(d) + seq![' '], wk);
    lemma_line_concat(seq!['<'], date_text(d));
    let to = match stamp.time {
        Some(tm) => seq![' '] + time_text(tm),
        None => seq![],
    };
    assert(line_chars(to)) by {
        match stamp.time {
            Some(tm) => {
                lemma_plain_line(time_text(tm));
                lemma_line_concat(seq![' '], time_text(tm));
            },
            None => {},
        }
    }
    lemma_line_concat(seq!['<'] + date_text(d), to);
    lemma_line_concat(seq!['<'] + date_text(d) + to, seq!['>']);
    assert(planning_text(stamp, None, None) =~= seq!['<'] + date_text(d) + to + seq!['>']);
}

/// The planning line the edit inserts under a headline, ended by `nl`, and
/// its bytes.
proof fn lemma_inserted_line(kind: PlanningKind, stamp: PlannedStamp, nl: Seq<char>)
    requires
        stamp.wf(),
        0 <= stamp.date.year,
        nl == seq!['\n'] || nl == seq!['\r', '\n'],
    ensures
        ({
            let w = keyword_bytes_of(kind);
            let st = planning_text(stamp, None, None);
            let ins = keyword_prefix(kind) + st + nl;
            let e = encode_utf8(ins);
            &&& e.len() == w.len() as int + 2 + st.len() as int + nl.len() as int
            &&& (nl.len() == 2 ==> e[e.len() as int - 2] == 13)
            &&& e.subrange(0, w.len() as int) == w
            &&& e[w.len() as int] == 58
            &&& e[w.len() as int + 1] == 32
            &&& e.subrange(w.len() as int + 2, w.len() as int + 2 + st.len() as int) == encode_utf8(st)
            &&& e[e.len() as int - 1] == 10
            &&& forall|k: int| 0 <= k < e.len() as int - 1 ==> #[trigger] e[k] != 10
        }),
{
    let w = keyword_bytes_of(kind);
    let st = planning_text(stamp, None, None);
    let kp = keyword_prefix(kind);
    let ins = kp + st + nl;
    lemma_stamp_line(stamp);
    lemma_stamp_bytes(stamp, None, None);
    assert(line_chars(kp)) by {
        assert forall|i: int| 0 <= i < kp.len() implies ' ' <= #[trigger] kp[i] <= '~' by {
            match kind {
                PlanningKind::Scheduled => {},
                PlanningKind::Deadline => {},
            }
        }
    }
    lemma_line_concat(kp, st);
    let body = kp + st;
    assert(is_ascii_chars(ins)) by {
        assert forall|i: int| 0 <= i < ins.len() implies '\0' <= #[trigger] ins[i] <= '\u{7f}' by {
            if i < body.len() {
                assert(ins[i] == body[i]);
            } else {
                assert(ins[i] == nl[i - body.len()]);
            }
        }
    }
    is_ascii_chars_encode_utf8(ins);
    let e = encode_utf8(ins);
    assert(kp.len() == w.len() as int + 2) by {
        match kind {
            PlanningKind::Scheduled => {},
            PlanningKind::Deadline => {},
        }
    }
    assert forall|k: int| 0 <= k < e.len() as int - 1 implies #[trigger] e[k] != 10 by {
        assert(e[k] == ins[k] as u8);
        if k < body.len() {
            assert(ins[k] == body[k]);
        } else {
            assert(ins[k] == nl[k - body.len()]);
        }
    }
    if nl.len() == 2 {
        assert(e[e.len() as int - 2] == ins[ins.len() as int - 2] as u8);
        assert(ins[ins.len() as int - 2] == nl[0]);
    }
    assert(e.subrange(0, w.len() as int) =~= w) by {
        assert forall|k: int| 0 <= k < w.len() implies e.subrange(0, w.len() as int)[k] == w[k] by {
            assert(e[k] == ins[k] as u8);
            assert(ins[k] == kp[k]);
            match kind {
                PlanningKind::Scheduled => {},
                PlanningKind::Deadline => {},
            }
        }
    }
    assert(e[w.len() as int] == ins[w.len() as int] as u8);
    assert(ins[w.len() as int] == kp[w.len() as int]);
    assert(e[w.len() as int + 1] == ins[w.len() as int + 1] as u8);
    assert(ins[w.len() as int + 1] == kp[w.len() as int + 1]);
    assert(kp[w.len() as int] == ':' && kp[w.len() as int + 1] == ' ') by {
        match kind {
            PlanningKind::Scheduled => {},
            PlanningKind::Deadline => {},
        }
    }
    assert(e.subrange(w.len() as int + 2, w.len() as int + 2 + st.len() as int) =~= encode_utf8(st)) by {
        assert forall|k: int| 0 <= k < st.len() implies e.subrange(w.len() as int + 2, w.len() as int + 2
            + st.len())[k] == encode_utf8(st)[k] by {
            assert(e[w.len() as int + 2 + k] == ins[w.len() as int + 2 + k] as u8);
            assert(ins[w.len() as int + 2 + k] == st[k]);
            assert(encode_utf8(st) == ascii_bytes(st));
        }
    }
    assert(e[e.len() as int - 1] == ins[ins.len() as int - 1] as u8);
    assert(ins[ins.len() as int - 1] == nl[nl.len() - 1]);
}

/// Where the headline line ends, in terms of the line's first byte.
proof fn lemma_headline_end(t: Seq<u8>, offset: int)
    requires
        0 <= offset,
    ensures
        ({
            let off = if offset < t.len() { offset } else { t.len() as int };
            let start = rfind_byte(t, 0, off, 10) + 1;
            let hle = headline_line_end(t, offset);
            &&& 0 <= start <= off <= hle <= t.len()
            &&& hle == find_byte(t, start, t.len() as int, 10)
            &&& hle < t.len() ==> t[hle] == 10
            &&& forall|k: int| start <= k < hle ==> t[k] != 10
        }),
{
    let off = if offset < t.len() { offset } else { t.len() as int };
    lemma_rfind_byte(t, 0, off, 10);
    let start = rfind_byte(t, 0, off, 10) + 1;
    lemma_find_byte(t, start, t.len() as int, 10);
}

proof fn lemma_rfind_frame(s: Seq<u8>, u: Seq<u8>, lo: int, e: int, c: u8)
    requires
        lo <= e <= s.len(),
        e <= u.len(),
        forall|k: int| lo <= k < e ==> s[k] == u[k],
    ensures
        rfind_byte(s, lo, e, c) == rfind_byte(u, lo, e, c),
    decreases e - lo,
{
    if e > lo && s[e - 1] != c {
        lemma_rfind_frame(s, u, lo, e - 1, c);
    }
}

/// The inserted line's keyword, colon and blank, as the entry search sees
/// them.
proof fn lemma_inserted_keyword(s1: Seq<u8>, lo: int, hi1: int, kind: PlanningKind, e: Seq<u8>, n: int)
    requires
        0 <= lo <= hi1,
        hi1 < s1.len(),
        s1.subrange(lo, hi1 + 1) == e,
        e.len() >= keyword_bytes_of(kind).len() + 2 + n + 1,
        n >= 1,
        e.subrange(0, keyword_bytes_of(kind).len() as int) == keyword_bytes_of(kind),
        e[keyword_bytes_of(kind).len() as int] == 58,
        e[keyword_bytes_of(kind).len() as int + 1] == 32,
        e[keyword_bytes_of(kind).len() as int + 2] == 60,
    ensures
        planning_line_spec(s1, lo, hi1),
        keyword_search(s1, lo, hi1, keyword_bytes_of(kind)) == Some(lo),
        skip_blanks(s1, lo + keyword_bytes_of(kind).len() + 1, hi1) == lo + keyword_bytes_of(kind).len() + 2,
        s1[lo + keyword_bytes_of(kind).len() + 2] == 60,
{
    let w = keyword_bytes_of(kind);
    let wl = w.len() as int;
    assert forall|k: int| 0 <= k < e.len() implies s1[lo + k] == #[trigger] e[k] by {
        assert(s1.subrange(lo, hi1 + 1)[k] == s1[lo + k]);
    }
    assert(matches_at(s1, lo, w)) by {
        assert(s1.subrange(lo, lo + wl) =~= w) by {
            assert forall|k: int| 0 <= k < wl implies s1.subrange(lo, lo + wl)[k] == w[k] by {
                assert(e.subrange(0, wl)[k] == e[k]);
            }
        }
    }
    assert(s1[lo] == w[0]) by {
        assert(s1.subrange(lo, lo + wl)[0] == s1[lo]);
    }
    assert(s1[lo] == 83 || s1[lo] == 68) by {
        match kind {
            PlanningKind::Scheduled => {},
            PlanningKind::Deadline => {},
        }
    }
    assert(crate::text::ws_width(s1, lo) == 0);
    assert(skip_ws(s1, lo, hi1) == lo);
    assert(s1[lo + wl] == 58);
    assert(word_colon_at(s1, lo, hi1, w));
    match kind {
        PlanningKind::Scheduled => assert(word_colon_at(s1, lo, hi1, scheduled_word())),
        PlanningKind::Deadline => assert(word_colon_at(s1, lo, hi1, deadline_word())),
    }
    assert(find_word(s1, lo, hi1, w) == lo);
    assert(s1[lo + wl + 1] == 32);
    assert(s1[lo + wl + 2] == 60);
    assert(skip_blanks(s1, lo + wl + 2, hi1) == lo + wl + 2);
}

/// A written stamp opens with `<`.
proof fn lemma_stamp_opens(stamp: PlannedStamp)
    requires
        stamp.wf(),
        0 <= stamp.date.year,
    ensures
        encode_utf8(planning_text(stamp, None, None)).len() >= 1,
        encode_utf8(planning_text(stamp, None, None))[0] == 60,
        parse_at_spec(encode_utf8(planning_text(stamp, None, None)), 0) == Some(
            (
                (true, stamp.date, stamp.time, None::<Date>, None::<Time>, None::<Repeater>, None::<Delay>),
                encode_utf8(planning_text(stamp, None, None)).len() as int,
            ),
        ),
        parse_one_spec(encode_utf8(planning_text(stamp, None, None)), 0) == Some(
            (
                (true, stamp.date, stamp.time, None::<Date>, None::<Time>, None::<Repeater>, None::<Delay>),
                encode_utf8(planning_text(stamp, None, None)).len() as int,
            ),
        ),
{
    lemma_stamp_head(stamp, None, None);
    lemma_planning_stamp_reparses(stamp, None, None);
}

/// The entry search finds the keyword at `lo` and the stamp that fills the
/// rest of the line.
proof fn lemma_entry_found(s1: Seq<u8>, lo: int, hi1: int, w: Seq<u8>, ts: int, f: crate::semantic::timestamp::StampFields, c: int)
    requires
        keyword_search(s1, lo, hi1, w) == Some(lo),
        skip_blanks(s1, lo + w.len() + 1, hi1) == ts,
        ts < hi1,
        s1[ts] == 60,
        parse_at_spec(s1.subrange(ts, hi1), 0) == Some((f, c)),
    ensures
        entry_spec(s1, lo, hi1, w) == Some((lo, Some((ts, ts + c, f.5, f.6)))),
{
}

/// Removing an entry that opens the line and runs to its end (or to a
/// final carriage return) deletes the whole line with its newline.
proof fn lemma_remove_whole_line(s1: Seq<u8>, lo: int, hi1: int, ee: int)
    requires
        0 <= lo <= ee <= hi1,
        hi1 < s1.len(),
        ee == hi1 || (ee == hi1 - 1 && s1[hi1 - 1] == 13),
    ensures
        remove_spec(s1, lo, hi1, lo, ee) == (lo, hi1 + 1, Seq::<char>::empty()),
{
    assert(back_blanks(s1, lo, lo) == lo);
    assert(skip_blanks(s1, ee, hi1) == ee);
    let rest = s1.subrange(lo, lo) + s1.subrange(ee, hi1);
    if ee == hi1 {
        assert(rest.len() == 0);
        assert(skip_ws(rest, 0, 0) == 0);
    } else {
        assert(rest =~= seq![13u8]);
        assert(crate::text::ws_width(rest, 0) == 1);
        assert(skip_ws(rest, 1, 1) == 1);
        assert(skip_ws(rest, 0, 1) == 1);
    }
}

/// The stamp on the inserted line reads back whole, a final carriage
/// return notwithstanding.
proof fn lemma_inserted_stamp(s1: Seq<u8>, ts: int, hi1: int, stamp: PlannedStamp)
    requires
        stamp.wf(),
        0 <= stamp.date.year,
        0 <= ts <= hi1 <= s1.len(),
        s1.subrange(ts, ts + encode_utf8(planning_text(stamp, None, None)).len()) == encode_utf8(
            planning_text(stamp, None, None),
        ),
        hi1 == ts + encode_utf8(planning_text(stamp, None, None)).len() || (hi1 == ts + encode_utf8(
            planning_text(stamp, None, None),
        ).len() + 1 && s1[hi1 - 1] == 13),
    ensures
        parse_at_spec(s1.subrange(ts, hi1), 0) == Some(
            (
                (true, stamp.date, stamp.time, None::<Date>, None::<Time>, None::<Repeater>, None::<Delay>),
                encode_utf8(planning_text(stamp, None, None)).len() as int,
            ),
        ),
{
    let es = encode_utf8(planning_text(stamp, None, None));
    let n = es.len() as int;
    lemma_stamp_opens(stamp);
    let sub = s1.subrange(ts, hi1);
    if hi1 == ts + n {
        assert(sub =~= s1.subrange(ts, ts + n));
    } else {
        assert forall|k: int| 0 <= k < n implies sub[k] == es[k] by {
            assert(s1.subrange(ts, ts + n)[k] == s1[ts + k]);
        }
        assert(sub =~= es.push(13));
        lemma_cr_stamp(es);
    }
}

/// A written stamp opens with `<`.
proof fn lemma_stamp_first(stamp: PlannedStamp)
    requires
        stamp.wf(),
        0 <= stamp.date.year,
    ensures
        encode_utf8(planning_text(stamp, None, None)).len() >= 1,
        encode_utf8(planning_text(stamp, None, None))[0] == 60,
{
    lemma_stamp_head(stamp, None, None);
}

/// What the entry search and the stamp reader meet on the inserted line.
#[verifier::rlimit(40)]
proof fn lemma_inserted_parts(s1: Seq<u8>, lo: int, hi1: int, kind: PlanningKind, stamp: PlannedStamp, nl: Seq<char>)
    requires
        stamp.wf(),
        0 <= stamp.date.year,
        nl == seq!['\n'] || nl == seq!['\r', '\n'],
        0 <= lo <= hi1,
        hi1 < s1.len(),
        s1.subrange(lo, hi1 + 1) == encode_utf8(keyword_prefix(kind) + planning_text(stamp, None, None)
            + nl),
    ensures
        ({
            let w = keyword_bytes_of(kind);
            let ts = lo + w.len() + 2;
            let es = encode_utf8(planning_text(stamp, None, None));
            let ee = ts + es.len();
            &&& planning_line_spec(s1, lo, hi1)
            &&& keyword_search(s1, lo, hi1, w) == Some(lo)
            &&& skip_blanks(s1, lo + w.len() + 1, hi1) == ts
            &&& s1[ts] == 60
            &&& lo <= ts < ee <= hi1
            &&& s1.subrange(ts, ee) == es
            &&& (ee == hi1 || (ee == hi1 - 1 && s1[hi1 - 1] == 13))
        }),
{
    let w = keyword_bytes_of(kind);
    let wl = w.len() as int;
    let st = planning_text(stamp, None, None);
    let n = st.len() as int;
    lemma_inserted_line(kind, stamp, nl);
    lemma_stamp_first(stamp);
    lemma_stamp_bytes(stamp, None, None);
    let es = encode_utf8(st);
    assert(es.len() == n);
    let e = encode_utf8(keyword_prefix(kind) + st + nl);
    assert(e[wl + 2] == 60) by {
        assert(e.subrange(wl + 2, wl + 2 + n)[0] == e[wl + 2]);
    }
    lemma_inserted_keyword(s1, lo, hi1, kind, e, n);
    let ts = lo + wl + 2;
    let ee = ts + n;
    assert(s1.subrange(ts, ee) =~= es) by {
        assert forall|k: int| 0 <= k < n implies s1.subrange(ts, ee)[k] == es[k] by {
            assert(s1.subrange(lo, hi1 + 1)[wl + 2 + k] == s1[ts + k]);
            assert(e.subrange(wl + 2, wl + 2 + n)[k] == e[wl + 2 + k]);
        }
    }
    if nl.len() == 2 {
        assert(s1[hi1 - 1] == 13) by {
            assert(s1.subrange(lo, hi1 + 1)[e.len() - 2] == s1[hi1 - 1]);
        }
    }
}

/// The remove edit on the inserted line takes the whole line.
proof fn lemma_inserted_entry(s1: Seq<u8>, lo: int, hi1: int, kind: PlanningKind, stamp: PlannedStamp, nl: Seq<char>)
    requires
        stamp.wf(),
        0 <= stamp.date.year,
        nl == seq!['\n'] || nl == seq!['\r', '\n'],
        0 <= lo <= hi1,
        hi1 < s1.len(),
        s1.subrange(lo, hi1 + 1) == encode_utf8(keyword_prefix(kind) + planning_text(stamp, None, None)
            + nl),
    ensures
        planning_line_spec(s1, lo, hi1),
        line_edit_spec(s1, lo, hi1, kind, None) == (lo, hi1 + 1, Seq::<char>::empty()),
{
    let w = keyword_bytes_of(kind);
    let es = encode_utf8(planning_text(stamp, None, None));
    let ts = lo + w.len() + 2;
    let ee = ts + es.len();
    lemma_inserted_parts(s1, lo, hi1, kind, stamp, nl);
    lemma_inserted_stamp(s1, ts, hi1, stamp);
    let f = (true, stamp.date, stamp.time, None::<Date>, None::<Time>, None::<Repeater>, None::<Delay>);
    lemma_entry_found(s1, lo, hi1, w, ts, f, es.len() as int);
    lemma_remove_whole_line(s1, lo, hi1, ee);
}

/// On a headline line ending in a newline and followed by no planning
/// line, setting a stamp inserts `KEYWORD: <stamp>` and the headline's
/// newline right after the headline line.
proof fn lemma_set_inserts(t: Seq<u8>, offset: int, kind: PlanningKind, stamp: PlannedStamp)
    requires
        0 <= offset,
        headline_line_end(t, offset) < t.len(),
        !planning_line_spec(t, planning_line_start(t, offset), planning_line_end(t, offset)),
    ensures
        planning_edit_spec(t, offset, kind, Some(stamp)) == (
            headline_line_end(t, offset) + 1,
            headline_line_end(t, offset) + 1,
            keyword_prefix(kind) + planning_text(stamp, None, None) + newline_text(
                t,
                headline_line_end(t, offset),
            ),
        ),
{
}

/// After inserting the bytes `e` (one line ending in its only newline)
/// right after the headline line, the headline line is unchanged and the
/// next line is the inserted one.
proof fn lemma_edited_lines(t: Seq<u8>, s1: Seq<u8>, offset: int, e: Seq<u8>)
    requires
        0 <= offset,
        headline_line_end(t, offset) < t.len(),
        e.len() >= 1,
        e[e.len() - 1] == 10,
        forall|k: int| 0 <= k < e.len() - 1 ==> #[trigger] e[k] != 10,
        s1 == t.subrange(0, headline_line_end(t, offset) + 1) + e + t.subrange(
            headline_line_end(t, offset) + 1,
            t.len() as int,
        ),
    ensures
        headline_line_end(s1, offset) == headline_line_end(t, offset),
        planning_line_start(s1, offset) == headline_line_end(t, offset) + 1,
        planning_line_end(s1, offset) == headline_line_end(t, offset) + e.len(),
        planning_line_end(s1, offset) < s1.len(),
        s1.subrange(headline_line_end(t, offset) + 1, headline_line_end(t, offset) + 1 + e.len()) == e,
{
    let n = t.len() as int;
    lemma_headline_end(t, offset);
    let hle = headline_line_end(t, offset);
    let lo = hle + 1;
    let m = e.len() as int;
    let n1 = s1.len() as int;
    assert(n1 == n + m);
    assert forall|k: int| 0 <= k < lo implies s1[k] == t[k] by {}
    assert forall|k: int| 0 <= k < m implies #[trigger] s1[lo + k] == e[k] by {}
    lemma_rfind_frame(t, s1, 0, offset, 10);
    let start = rfind_byte(t, 0, offset, 10) + 1;
    lemma_find_at(s1, start, hle, n1, 10);
    let hi1 = lo + m - 1;
    assert forall|k: int| lo <= k < hi1 implies s1[k] != 10 by {
        assert(s1[lo + (k - lo)] == e[k - lo]);
    }
    assert(s1[hi1] == 10) by {
        assert(s1[lo + (m - 1)] == e[m - 1]);
    }
    lemma_find_at(s1, lo, hi1, n1, 10);
    assert(s1.subrange(lo, lo + m) =~= e);
}

/// Removing the stamp from the inserted line deletes the whole line.
proof fn lemma_remove_inserted(
    s1: Seq<u8>,
    offset: int,
    kind: PlanningKind,
    stamp: PlannedStamp,
    nl: Seq<char>,
    lo: int,
    hi1: int,
)
    requires
        stamp.wf(),
        0 <= stamp.date.year,
        nl == seq!['\n'] || nl == seq!['\r', '\n'],
        0 <= lo <= hi1 < s1.len(),
        planning_line_start(s1, offset) == lo,
        planning_line_end(s1, offset) == hi1,
        s1.subrange(lo, hi1 + 1) == encode_utf8(keyword_prefix(kind) + planning_text(stamp, None, None)
            + nl),
    ensures
        planning_edit_spec(s1, offset, kind, None) == (lo, hi1 + 1, Seq::<char>::empty()),
{
    lemma_inserted_entry(s1, lo, hi1, kind, stamp, nl);
}

proof fn lemma_cut_back(t: Seq<u8>, s1: Seq<u8>, lo: int, e: Seq<u8>)
    requires
        0 <= lo <= t.len(),
        s1 == t.subrange(0, lo) + e + t.subrange(lo, t.len() as int),
    ensures
        apply_edit(s1, (lo, lo + e.len(), Seq::<char>::empty())) == t,
{
    let n = t.len() as int;
    let m = e.len() as int;
    let r = apply_edit(s1, (lo, lo + m, Seq::<char>::empty()));
    assert(encode_utf8(Seq::<char>::empty()) =~= Seq::<u8>::empty());
    assert(r =~= s1.subrange(0, lo) + s1.subrange(lo + m, s1.len() as int));
    assert forall|k: int| 0 <= k < n implies r[k] == t[k] by {
        if k >= lo {
            assert(s1[k + m] == t[k]);
        }
    }
    assert(r =~= t);
}

/// Setting a stamp under a headline that has no planning line, and then
/// removing it again, gives back the original text byte for byte: the
/// removal deletes the whole planning line the setting created, with its
/// newline (`\n` or `\r\n`, as the headline line ends). Years before 0 are
/// left out, as their stamps do not read back.
pub proof fn lemma_set_then_remove(t: Seq<u8>, offset: int, kind: PlanningKind, stamp: PlannedStamp)
    requires
        0 <= offset,
        stamp.wf(),
        0 <= stamp.date.year,
        headline_line_end(t, offset) < t.len(),
        !planning_line_spec(t, planning_line_start(t, offset), planning_line_end(t, offset)),
    ensures
        ({
            let s1 = apply_edit(t, planning_edit_spec(t, offset, kind, Some(stamp)));
            apply_edit(s1, planning_edit_spec(s1, offset, kind, None)) == t
        }),
{
    let hle = headline_line_end(t, offset);
    let lo = hle + 1;
    let nl = newline_text(t, hle);
    let ins = keyword_prefix(kind) + planning_text(stamp, None, None) + nl;
    lemma_set_inserts(t, offset, kind, stamp);
    lemma_inserted_line(kind, stamp, nl);
    let e = encode_utf8(ins);
    let s1 = apply_edit(t, (lo, lo, ins));
    assert(s1 == t.subrange(0, lo) + e + t.subrange(lo, t.len() as int));
    lemma_headline_end(t, offset);
    lemma_edited_lines(t, s1, offset, e);
    assert(planning_line_end(s1, offset) == lo + e.len() - 1);
    lemma_remove_inserted(s1, offset, kind, stamp, nl, lo, lo + e.len() - 1);
    lemma_cut_back(t, s1, lo, e);
}

} // verus!
