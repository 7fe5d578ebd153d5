use orgsidian::semantic::drawer::{parse_clock_line, parse_clock_lines, parse_duration, Duration};

#[test]
fn closed_entry_parses_start_end_duration() {
    let line = "CLOCK: [2026-06-09 Tue 10:00]--[2026-06-09 Tue 11:30] =>  1:30\n";
    let entry = parse_clock_line(line, 1000).expect("closed clock line");
    assert!(!entry.start.active);
    assert!(entry.end.is_some());
    assert_eq!(entry.duration, Duration::try_minutes(90));
    assert_eq!(entry.span.start, 1000);
}

#[test]
fn open_entry_has_start_only() {
    let entry = parse_clock_line("CLOCK: [2026-06-10 Wed 08:00]\n", 0).expect("open line");
    assert!(entry.end.is_none());
    assert!(entry.duration.is_none());
    assert_eq!(entry.span, 0..29);
}

#[test]
fn malformed_lines_are_skipped_not_errors() {
    assert_eq!(parse_clock_line("CLOCK: not a timestamp\n", 0), None);
    assert_eq!(parse_clock_line("CLOCKS: [2026-06-10 Wed]\n", 0), None);
    assert_eq!(parse_clock_line("random text\n", 0), None);
    // Unparseable duration keeps the entry, drops the field.
    let entry = parse_clock_line(
        "CLOCK: [2026-06-09 Tue 10:00]--[2026-06-09 Tue 11:30] => soon\n",
        0,
    )
    .expect("entry kept");
    assert!(entry.duration.is_none());
}

#[test]
fn range_with_unparseable_end_is_malformed_not_open() {
    // `--garbage` must not yield an open entry.
    assert_eq!(
        parse_clock_line("CLOCK: [2026-06-09 Tue 10:00]--garbage\n", 0),
        None
    );
    assert_eq!(
        parse_clock_line("CLOCK: [2026-06-09 Tue 10:00]-- => 1:30\n", 0),
        None
    );
}

#[test]
fn nonsense_durations_are_rejected() {
    // signed/out-of-range components drop the
    // field (entry kept), never a negative or rewritten duration.
    for bad in ["-1:30", "1:99", "1:-5"] {
        assert_eq!(parse_duration(bad), None, "{bad}");
    }
    assert_eq!(parse_duration("123:45"), Duration::try_minutes(7425));
    let line = "CLOCK: [2026-06-09 Tue 10:00]--[2026-06-09 Tue 11:30] => -1:30\n";
    let entry = parse_clock_line(line, 0).expect("entry kept");
    assert!(entry.duration.is_none());
}

#[test]
fn scans_multiple_lines_with_offsets() {
    let contents = "CLOCK: [2026-06-10 Wed 08:00]\njunk line\nCLOCK: [2026-06-11 Thu 09:00]\n";
    let entries = parse_clock_lines(contents, 50);
    assert_eq!(entries.len(), 2);
    assert_eq!(entries[0].span.start, 50);
    assert_eq!(entries[1].span.start, 50 + 30 + 10);
}
