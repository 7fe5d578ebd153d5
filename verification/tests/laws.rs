use orgsidian::plugin::PluginError;
use orgsidian::semantic::drawer::Duration;
use orgsidian::semantic::timestamp::{
    format_planning_timestamp, parse_at, parse_delay, parse_repeater, resolve_date_shortcut, set_planning_timestamp, Date, PlannedStamp,
    PlanningEdit, PlanningKind, Repeater, RepeaterKind, Time, TimeUnit,
};
use orgsidian::semantic::todo::TodoConfig;
use orgsidian::text::{str_less, substring};
use orgsidian::semantic::link::{scan_links, LinkKind};

fn date(y: i32, m: u32, d: u32) -> Date {
    Date::from_ymd_opt(y, m, d).expect("valid test date")
}

fn apply(source: &str, edit: &PlanningEdit) -> String {
    format!("{}{}{}", &source[..edit.from], edit.insert, &source[edit.to..])
}

#[test]
fn dates_and_times_exist_or_are_refused() {
    assert!(Date::from_ymd_opt(2024, 2, 29).is_some());
    assert!(Date::from_ymd_opt(2026, 2, 29).is_none());
    assert!(Date::from_ymd_opt(2026, 13, 1).is_none());
    assert!(Date::from_ymd_opt(2026, 4, 31).is_none());
    assert_eq!(Time::from_hm_opt(23, 59), Some(Time { hour: 23, minute: 59 }));
    assert_eq!(Time::from_hm_opt(24, 0), None);
    assert_eq!(Time::from_hm_opt(0, 60), None);
    assert!(date(2026, 5, 19).is_before(&date(2026, 5, 20)));
    assert!(!date(2026, 5, 20).is_before(&date(2026, 5, 20)));
}

#[test]
fn month_shortcuts_clamp_backwards_too() {
    assert_eq!(resolve_date_shortcut("-1m", date(2026, 3, 31)), Some(date(2026, 2, 28)));
    assert_eq!(resolve_date_shortcut("+13m", date(2026, 1, 31)), Some(date(2027, 2, 28)));
    // Hours are no shortcut unit.
    assert_eq!(resolve_date_shortcut("+2h", date(2026, 1, 31)), None);
    assert_eq!(resolve_date_shortcut("+1M", date(2026, 1, 31)), None, "months are lowercase only");
    assert_eq!(resolve_date_shortcut("+1D", date(2026, 1, 31)), Some(date(2026, 2, 1)));
}

#[test]
fn shortcuts_take_one_sign_and_digits_only() {
    let today = date(2026, 5, 19);
    assert_eq!(resolve_date_shortcut("+-1d", today), None);
    assert_eq!(resolve_date_shortcut("++1d", today), None);
    assert_eq!(resolve_date_shortcut("-+1d", today), None);
    assert_eq!(resolve_date_shortcut("+", today), None);
    assert_eq!(resolve_date_shortcut("+d", today), None);
    assert_eq!(resolve_date_shortcut("2026-05-19", today), None);
    assert_eq!(resolve_date_shortcut("tomorrow", today), None);
    assert_eq!(resolve_date_shortcut("", today), None);
    assert_eq!(resolve_date_shortcut("-1d", today), Some(date(2026, 5, 18)));
    assert_eq!(resolve_date_shortcut(" +1 ", today), Some(date(2026, 5, 20)));
    assert_eq!(resolve_date_shortcut("NOW", today), Some(today));
}

#[test]
fn durations_fit_chrono() {
    assert_eq!(Duration::try_minutes(90), Some(Duration { minutes: 90 }));
    assert_eq!(Duration::try_minutes(i64::MAX), None);
}

#[test]
fn plugin_error_messages() {
    let cases = [
        (PluginError::Init { reason: "x".into() }, "plugin init failed: x"),
        (PluginError::Runtime { reason: "boom".into() }, "plugin runtime error: boom"),
        (
            PluginError::HostUnavailable { capability: "index".into() },
            "host capability unavailable: index",
        ),
        (PluginError::InvalidInput { reason: "bad".into() }, "invalid input from host: bad"),
    ];
    for (err, text) in cases {
        assert_eq!(err.message(), text);
    }
}

#[test]
fn str_less_is_byte_order() {
    assert!(str_less("2026-09-04", "2026-09-05"));
    assert!(!str_less("2026-09-05", "2026-09-05"));
    assert!(str_less("2026", "2026-01-01"));
    assert!(!str_less("b", "a"));
    assert!(str_less("a", "é"));
}

#[test]
fn substring_keeps_valid_text_and_replaces_invalid_bytes() {
    assert_eq!(substring("héllo".as_bytes(), 0, 3), "hé");
    assert_eq!(substring(&[0x61, 0xFF, 0x62], 0, 3), "a\u{FFFD}b");
}

#[test]
fn next_never_leaves_the_owning_sequence() {
    let cfg = TodoConfig::from_directive_values(["A B | C", "X | Y Z"]);
    for kw in ["A", "B", "C"] {
        let n = cfg.next(Some(kw)).expect("defined");
        assert!(["A", "B", "C"].contains(&n), "{kw} -> {n}");
    }
    for kw in ["X", "Y", "Z"] {
        let n = cfg.next(Some(kw)).expect("defined");
        assert!(["X", "Y", "Z"].contains(&n), "{kw} -> {n}");
    }
    assert_eq!(cfg.next(Some("Z")), Some("X"));
    assert_eq!(cfg.classify("Y"), Some(true));
    assert_eq!(cfg.next(Some("Q")), None);
    assert_eq!(cfg.classify("Q"), None);
}

#[test]
fn planning_edit_touches_only_the_planning_line() {
    let source = "* One\nSCHEDULED: <2026-01-01 Thu>\nbody\n* Two\n";
    let edit = set_planning_timestamp(
        source,
        0,
        PlanningKind::Deadline,
        Some(PlannedStamp { date: date(2026, 2, 1), time: None }),
    );
    assert!(edit.from >= "* One\n".len() - 1);
    assert!(edit.to <= "* One\nSCHEDULED: <2026-01-01 Thu>\n".len());
    assert_eq!(
        apply(source, &edit),
        "* One\nSCHEDULED: <2026-01-01 Thu> DEADLINE: <2026-02-01 Sun>\nbody\n* Two\n"
    );
}

#[test]
fn a_formatted_stamp_parses_back() {
    let stamp = PlannedStamp { date: date(2026, 5, 19), time: Time::from_hm_opt(9, 5) };
    let rep = Some(Repeater { kind: RepeaterKind::Restart, value: 12, unit: TimeUnit::Month });
    let text = format_planning_timestamp(stamp, rep, None);
    assert_eq!(text, "<2026-05-19 Tue 09:05 .+12m>");
    let ts = parse_at(&text, 0).expect("parses");
    assert!(ts.active);
    assert_eq!(ts.date, stamp.date);
    assert_eq!(ts.time, stamp.time);
    assert_eq!(ts.end_date, None);
    assert_eq!(ts.end_time, None);
    assert_eq!(ts.repeater, rep);
    assert_eq!(ts.delay, None);
    assert_eq!(ts.raw, text);
}

#[test]
fn setting_then_removing_a_stamp_restores_the_text() {
    for src in ["* Task\nbody é\n", "* Task\r\nbody\r\n", "intro\n** Deep ü\n"] {
        let offset = src.find('*').unwrap();
        for kind in [PlanningKind::Scheduled, PlanningKind::Deadline] {
            let stamp = PlannedStamp { date: date(2026, 5, 19), time: Time::from_hm_opt(9, 30) };
            let set = set_planning_timestamp(src, offset, kind, Some(stamp));
            let s1 = apply(src, &set);
            assert_ne!(s1, src);
            let removed = set_planning_timestamp(&s1, offset, kind, None);
            assert_eq!(apply(&s1, &removed), src);
        }
    }
}

#[test]
fn planning_edits_never_split_a_character() {
    let src = "* Täsk ✓\nSCHEDULED: <2026-01-01 Thu>  DEADLINE: <2026-02-01 Sun> é\nbödy\n";
    for kind in [PlanningKind::Scheduled, PlanningKind::Deadline] {
        for new in [None, Some(PlannedStamp { date: date(2026, 3, 3), time: None })] {
            let edit = set_planning_timestamp(src, 2, kind, new);
            assert!(src.is_char_boundary(edit.from));
            assert!(src.is_char_boundary(edit.to));
        }
    }
}

#[test]
fn interval_cookies_need_a_positive_count_and_end_in_their_unit() {
    assert!(parse_repeater("+0d").is_none());
    assert!(parse_delay("-0w").is_none());
    let r = parse_repeater("++3w").expect("catch-up repeater");
    assert_eq!((r.value, r.unit), (3, TimeUnit::Week));
    let ts = parse_at("<2026-06-10 Wed +0d>", 0).expect("stamp still reads");
    assert!(ts.repeater.is_none());
    assert_eq!(ts.raw, "<2026-06-10 Wed +0d>");
}

#[test]
fn resolved_todo_configurations_are_never_empty() {
    for values in [&[][..], &["   "][..], &["|"][..], &["A | B", ""][..], &["ONE"][..]] {
        let config = TodoConfig::from_directive_slice(values);
        assert!(!config.keywords().is_empty());
    }
}

#[test]
fn scanned_links_have_their_stated_shape() {
    let text = "a [[id:x][desc]] b [[wiki]] see https://x.dev/p, xhttps://no.dev";
    let links = scan_links(text, 100);
    assert_eq!(links.len(), 3);
    for pair in links.windows(2) {
        assert!(pair[0].span.end <= pair[1].span.start);
    }
    for l in &links {
        let s = &text[l.span.start - 100..l.span.end - 100];
        if l.kind == LinkKind::Plain {
            assert_eq!(s, l.target);
            assert!(s.starts_with("http://") || s.starts_with("https://"));
        } else {
            assert!(s.starts_with("[[") && s.ends_with("]]"));
            assert!(!l.target.is_empty() && !l.target.contains("]]"));
        }
    }
}
