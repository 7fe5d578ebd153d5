use orgsidian::semantic::timestamp::{
    format_planning_timestamp, parse_at, parse_delay, parse_repeater, resolve_date_shortcut,
    set_planning_timestamp, Date, Delay, DelayKind, PlannedStamp, PlanningEdit, PlanningKind,
    Repeater, RepeaterKind, Time, TimeUnit,
};

fn date(y: i32, m: u32, d: u32) -> Date {
    Date::from_ymd_opt(y, m, d).expect("valid test date")
}

fn hm(h: u32, m: u32) -> Option<Time> {
    Time::from_hm_opt(h, m)
}

/// Apply a [`PlanningEdit`] to `source`, returning the new buffer, as the
/// editor applies it.
fn apply(source: &str, edit: &PlanningEdit) -> String {
    format!(
        "{}{}{}",
        &source[..edit.from],
        edit.insert,
        &source[edit.to..]
    )
}

#[test]
fn parses_full_active_stamp() {
    let text = "<2026-06-10 Wed 10:00-11:00 +1w -2d>";
    let ts = parse_at(text, 100).expect("must parse");
    assert!(ts.active);
    assert_eq!(ts.date, date(2026, 6, 10));
    assert_eq!(ts.time, hm(10, 0));
    assert_eq!(ts.end_time, hm(11, 0));
    assert_eq!(
        ts.repeater,
        Some(Repeater {
            kind: RepeaterKind::Cumulate,
            value: 1,
            unit: TimeUnit::Week
        })
    );
    assert_eq!(
        ts.delay,
        Some(Delay {
            kind: DelayKind::All,
            value: 2,
            unit: TimeUnit::Day
        })
    );
    assert_eq!(ts.raw, text);
    assert_eq!(ts.span, 100..100 + text.len());
}

#[test]
fn parses_inactive_and_date_range() {
    let ts = parse_at("[2026-06-09 Tue]--[2026-06-10 Wed 08:00]", 0).expect("must parse");
    assert!(!ts.active);
    assert_eq!(ts.date, date(2026, 6, 9));
    assert_eq!(ts.end_date, Some(date(2026, 6, 10)));
    assert_eq!(ts.end_time, hm(8, 0));
    assert_eq!(ts.span, 0..40);
}

#[test]
fn rejects_impossible_dates_without_panicking() {
    assert_eq!(parse_at("<2026-13-40 Xxx>", 0), None);
    assert_eq!(parse_at("<not-a-date>", 0), None);
    assert_eq!(parse_at("plain text", 0), None);
    assert_eq!(parse_at("<2026-06-10", 0), None, "unterminated stamp");
}

#[test]
fn day_names_and_stray_tokens_are_tolerated() {
    let ts = parse_at("<2026-06-10 Mer 10:00 garbage>", 0).expect("lenient");
    assert_eq!(ts.time, hm(10, 0));
}

#[test]
fn zero_value_intervals_are_stray_text() {
    // `+0d` must not become a Repeater/Delay.
    assert_eq!(parse_repeater("+0d"), None);
    assert_eq!(parse_delay("-0w"), None);
    let ts = parse_at("<2026-06-10 Wed +0d>", 0).expect("stamp still parses");
    assert_eq!(ts.repeater, None);
    assert_eq!(ts.raw, "<2026-06-10 Wed +0d>", "token survives in raw");
}

#[test]
fn unparseable_range_tail_degrades_to_first_half() {
    // Documented lenient posture: the `--…` tail stays outside `raw`.
    let ts = parse_at("<2026-06-10 Wed>--<garbage>", 7).expect("first half");
    assert_eq!(ts.end_date, None);
    assert_eq!(ts.raw, "<2026-06-10 Wed>");
    assert_eq!(ts.span, 7..7 + 16);
}

#[test]
fn repeater_kinds_and_units() {
    for (text, kind, unit) in [
        ("+1h", RepeaterKind::Cumulate, TimeUnit::Hour),
        ("++3m", RepeaterKind::CatchUp, TimeUnit::Month),
        (".+2y", RepeaterKind::Restart, TimeUnit::Year),
    ] {
        let rep = parse_repeater(text).expect("repeater");
        assert_eq!(rep.kind, kind);
        assert_eq!(rep.unit, unit);
    }
    assert_eq!(parse_repeater("+w"), None, "missing value");
    assert_eq!(parse_repeater("+1x"), None, "unknown unit");
}


#[test]
fn resolves_today_and_now() {
    let today = date(2026, 5, 19);
    assert_eq!(resolve_date_shortcut("today", today), Some(today));
    assert_eq!(resolve_date_shortcut("  Today ", today), Some(today));
    assert_eq!(resolve_date_shortcut("NOW", today), Some(today));
}

#[test]
fn resolves_signed_day_and_week_shortcuts() {
    let today = date(2026, 5, 19); // Tue
    assert_eq!(resolve_date_shortcut("+1d", today), Some(date(2026, 5, 20)));
    assert_eq!(
        resolve_date_shortcut("+1", today),
        Some(date(2026, 5, 20)),
        "bare +N == days"
    );
    assert_eq!(resolve_date_shortcut("+1w", today), Some(date(2026, 5, 26)));
    assert_eq!(resolve_date_shortcut("-2d", today), Some(date(2026, 5, 17)));
    assert_eq!(
        resolve_date_shortcut("+0d", today),
        Some(today),
        "zero offset is allowed here"
    );
}

#[test]
fn resolves_month_and_year_shortcuts_clamping_day() {
    // Jan 31 +1m clamps to Feb 28 (2026 is not a leap year).
    assert_eq!(
        resolve_date_shortcut("+1m", date(2026, 1, 31)),
        Some(date(2026, 2, 28))
    );
    assert_eq!(
        resolve_date_shortcut("+1y", date(2026, 5, 19)),
        Some(date(2027, 5, 19))
    );
    assert_eq!(
        resolve_date_shortcut("-1y", date(2026, 5, 19)),
        Some(date(2025, 5, 19))
    );
}

#[test]
fn rejects_non_shortcuts() {
    let today = date(2026, 5, 19);
    assert_eq!(
        resolve_date_shortcut("2026-05-19", today),
        None,
        "literal date is not a shortcut"
    );
    assert_eq!(resolve_date_shortcut("+", today), None);
    assert_eq!(resolve_date_shortcut("+d", today), None, "missing value");
    assert_eq!(resolve_date_shortcut("tomorrow", today), None);
    assert_eq!(resolve_date_shortcut("", today), None);
}


#[test]
fn formats_planning_timestamp_with_computed_weekday() {
    let stamp = PlannedStamp {
        date: date(2026, 5, 19), // a Tuesday
        time: None,
    };
    assert_eq!(
        format_planning_timestamp(stamp, None, None),
        "<2026-05-19 Tue>"
    );

    let with_time = PlannedStamp {
        date: date(2026, 5, 19),
        time: hm(14, 0),
    };
    assert_eq!(
        format_planning_timestamp(with_time, None, None),
        "<2026-05-19 Tue 14:00>"
    );
}

#[test]
fn formats_planning_timestamp_re_emits_cookies() {
    let stamp = PlannedStamp {
        date: date(2026, 5, 19),
        time: hm(9, 30),
    };
    let rep = Some(Repeater {
        kind: RepeaterKind::Cumulate,
        value: 1,
        unit: TimeUnit::Week,
    });
    let del = Some(Delay {
        kind: DelayKind::All,
        value: 2,
        unit: TimeUnit::Day,
    });
    assert_eq!(
        format_planning_timestamp(stamp, rep, del),
        "<2026-05-19 Tue 09:30 +1w -2d>"
    );
}


fn planned(y: i32, m: u32, d: u32, hm: Option<(u32, u32)>) -> PlannedStamp {
    PlannedStamp {
        date: date(y, m, d),
        time: hm.map(|(h, mn)| Time::from_hm_opt(h, mn).expect("valid time")),
    }
}

#[test]
fn creates_planning_line_when_none_exists() {
    let source = "* Task\nBody text\n";
    let edit = set_planning_timestamp(
        source,
        0,
        PlanningKind::Scheduled,
        Some(planned(2026, 5, 19, None)),
    );
    assert_eq!(
        apply(source, &edit),
        "* Task\nSCHEDULED: <2026-05-19 Tue>\nBody text\n"
    );
}

#[test]
fn creates_deadline_line_on_headline_without_trailing_newline() {
    let source = "* Task"; // last line, no newline
    let edit = set_planning_timestamp(
        source,
        0,
        PlanningKind::Deadline,
        Some(planned(2026, 5, 19, Some((17, 0)))),
    );
    assert_eq!(
        apply(source, &edit),
        "* Task\nDEADLINE: <2026-05-19 Tue 17:00>"
    );
}

#[test]
fn replaces_existing_scheduled_and_preserves_body() {
    let source = "* Task\nSCHEDULED: <2026-05-19 Tue>\n:PROPERTIES:\n:ID: x\n:END:\n";
    let edit = set_planning_timestamp(
        source,
        0,
        PlanningKind::Scheduled,
        Some(planned(2026, 6, 1, None)),
    );
    assert_eq!(
        apply(source, &edit),
        "* Task\nSCHEDULED: <2026-06-01 Mon>\n:PROPERTIES:\n:ID: x\n:END:\n"
    );
}

#[test]
fn replace_carries_recurring_cookie_over() {
    // Recurring timestamps are preserved on round-trip. Re-picking a date
    // on a recurring task keeps the `+1w` cookie (and the `-2d` delay).
    let source = "* Weekly review\nSCHEDULED: <2026-05-19 Tue +1w -2d>\n";
    let edit = set_planning_timestamp(
        source,
        0,
        PlanningKind::Scheduled,
        Some(planned(2026, 5, 26, None)),
    );
    assert_eq!(
        apply(source, &edit),
        "* Weekly review\nSCHEDULED: <2026-05-26 Tue +1w -2d>\n"
    );
}

#[test]
fn adds_second_keyword_to_existing_planning_line() {
    // A planning line already carries DEADLINE; adding SCHEDULED appends it
    // and leaves the existing entry byte-identical.
    let source = "* Task\nDEADLINE: <2026-05-30 Sat>\n";
    let edit = set_planning_timestamp(
        source,
        0,
        PlanningKind::Scheduled,
        Some(planned(2026, 5, 19, Some((10, 0)))),
    );
    assert_eq!(
        apply(source, &edit),
        "* Task\nDEADLINE: <2026-05-30 Sat> SCHEDULED: <2026-05-19 Tue 10:00>\n"
    );
}

#[test]
fn removes_only_entry_drops_whole_planning_line() {
    let source = "* Task\nSCHEDULED: <2026-05-19 Tue>\nBody\n";
    let edit = set_planning_timestamp(source, 0, PlanningKind::Scheduled, None);
    assert_eq!(apply(source, &edit), "* Task\nBody\n");
}

#[test]
fn removes_one_entry_keeps_sibling_on_line() {
    let source = "* Task\nDEADLINE: <2026-05-30 Sat> SCHEDULED: <2026-05-19 Tue>\n";
    let edit = set_planning_timestamp(source, 0, PlanningKind::Scheduled, None);
    assert_eq!(apply(source, &edit), "* Task\nDEADLINE: <2026-05-30 Sat>\n");
}

#[test]
fn remove_absent_entry_is_noop() {
    let source = "* Task\nBody\n";
    let edit = set_planning_timestamp(source, 0, PlanningKind::Deadline, None);
    assert_eq!(edit.from, edit.to);
    assert_eq!(edit.insert, "");
    assert_eq!(
        apply(source, &edit),
        source,
        "no-op leaves the buffer identical"
    );
}

#[test]
fn preserves_crlf_line_endings_on_insert() {
    let source = "* Task\r\nBody\r\n";
    let edit = set_planning_timestamp(
        source,
        0,
        PlanningKind::Scheduled,
        Some(planned(2026, 5, 19, None)),
    );
    assert_eq!(
        apply(source, &edit),
        "* Task\r\nSCHEDULED: <2026-05-19 Tue>\r\nBody\r\n"
    );
}

#[test]
fn write_is_byte_faithful_and_reparses_via_analyze() {
    // End-to-end: writing SCHEDULED then re-analyzing yields the timestamp,
    // and only the planning line changed. Also proves the second headline is
    // untouched byte-for-byte.
    let source = "* One\nsome body\n* Two\nSCHEDULED: <2026-01-01 Thu>\n";
    // Offset of the FIRST headline is 0.
    let edit = set_planning_timestamp(
        source,
        0,
        PlanningKind::Scheduled,
        Some(planned(2026, 5, 19, Some((9, 0)))),
    );
    let out = apply(source, &edit);
    assert_eq!(
        out,
        "* One\nSCHEDULED: <2026-05-19 Tue 09:00>\nsome body\n* Two\nSCHEDULED: <2026-01-01 Thu>\n"
    );
    let at = out.find("SCHEDULED: ").expect("planning line written") + "SCHEDULED: ".len();
    let sched = parse_at(&out[at..], at).expect("scheduled parsed back");
    assert_eq!(sched.date, date(2026, 5, 19));
    assert_eq!(sched.time, hm(9, 0));
}

#[test]
fn targets_the_headline_at_the_given_offset() {
    // Offset points at the SECOND headline; only its planning gets written.
    let source = "* One\n* Two\nBody two\n";
    let two_offset = source.find("* Two").expect("has second headline");
    let edit = set_planning_timestamp(
        source,
        two_offset,
        PlanningKind::Deadline,
        Some(planned(2026, 5, 19, None)),
    );
    assert_eq!(
        apply(source, &edit),
        "* One\n* Two\nDEADLINE: <2026-05-19 Tue>\nBody two\n"
    );
}
