use orgsidian::index::agenda::{sort_by_agenda_date, today_item, today_items, week_items, AgendaItem, AgendaRow};
use orgsidian::index::connection::{
    check_int, check_mmap, check_text, locked_pragmas, verify_read_back, ConnectionManager, ReadBack,
    CACHE_SIZE_KIB, MMAP_SIZE_BYTES, WAL_AUTOCHECKPOINT_PAGES,
};
use orgsidian::index::dashboard::{assemble_dashboard, inbox_limit, ActiveClock, DashboardParams, InboxItem};
use orgsidian::index::identity::{
    classify_identity, has_our_schema, needs_schema_check, IndexIdentity, APPLICATION_ID,
    EXPECTED_USER_VERSION,
};
use orgsidian::index::integrity::{
    fts_verdict, foreign_key_verdict, integrity_report, join_texts, page_check_verdict, violation,
};
use orgsidian::index::query::{adjacency, for_headline, query, unlinked_mentions, GraphScope, HeadlineId, SearchQuery};
use orgsidian::index::sync::is_unchanged;

/// A fetched row: a TODO headline of `file` titled `title`.
fn row(file: &str, title: &str, scheduled: Option<&str>, deadline: Option<&str>) -> AgendaRow {
    AgendaRow {
        headline_id: 1,
        file_path: file.to_string(),
        title: title.to_string(),
        byte_start: 0,
        todo_keyword: Some("TODO".to_string()),
        scheduled_date: scheduled.map(str::to_string),
        scheduled_time: None,
        deadline_date: deadline.map(str::to_string),
        deadline_time: None,
    }
}

#[test]
fn the_applied_pragmas_are_built_from_the_verified_constants() {
    // The drift guard: these values are applied as text and verified as
    // integers, and nothing else ties the two together.
    let sql = locked_pragmas();
    assert!(sql.contains(&format!("PRAGMA mmap_size = {MMAP_SIZE_BYTES};")));
    assert!(sql.contains(&format!("PRAGMA cache_size = {CACHE_SIZE_KIB};")));
    assert!(sql.contains(&format!(
        "PRAGMA wal_autocheckpoint = {WAL_AUTOCHECKPOINT_PAGES};"
    )));
}

#[test]
fn locked_pragmas_are_the_whole_batch_in_order() {
    assert_eq!(
        locked_pragmas(),
        "PRAGMA journal_mode = WAL;\nPRAGMA synchronous = NORMAL;\nPRAGMA mmap_size = 268435456;\n\
         PRAGMA cache_size = -64000;\nPRAGMA temp_store = MEMORY;\nPRAGMA wal_autocheckpoint = 4000;\n\
         PRAGMA foreign_keys = ON;\n"
    );
}

#[test]
fn a_mismatched_pragma_is_reported_with_both_values() {
    assert!(check_int("temp_store", 2, 2).is_ok());
    let err = check_int("temp_store", 99, 2).expect_err("a value that does not match must be reported");
    assert_eq!(err.name, "temp_store");
    assert_eq!(err.expected, "99");
    assert_eq!(err.actual, "2");
    assert_eq!(err.message(), "pragma temp_store did not take effect: expected 99, got 2");
}

#[test]
fn verify_text_is_case_insensitive() {
    // journal_mode reads back lowercase `wal` whatever case it was written in.
    assert!(check_text("journal_mode", "MEMORY", "memory".to_string()).is_ok());
    let err = check_text("journal_mode", "wal", "delete".to_string()).expect_err("mismatch");
    assert_eq!(err.expected, "wal");
    assert_eq!(err.actual, "delete");
}

#[test]
fn mmap_size_only_has_to_be_enabled() {
    assert!(check_mmap(1).is_ok());
    assert!(check_mmap(MMAP_SIZE_BYTES).is_ok());
    let err = check_mmap(0).expect_err("mapping off");
    assert_eq!(err.name, "mmap_size");
    assert_eq!(err.expected, "> 0 (requested 268435456, build may clamp it lower)");
    assert_eq!(err.actual, "0");
}

fn healthy_read_back() -> ReadBack {
    ReadBack {
        journal_mode: "wal".to_string(),
        synchronous: 1,
        mmap_size: 4096,
        cache_size: CACHE_SIZE_KIB,
        temp_store: 2,
        wal_autocheckpoint: WAL_AUTOCHECKPOINT_PAGES,
        foreign_keys: 1,
    }
}

#[test]
fn read_back_passes_only_when_every_pragma_took() {
    assert!(verify_read_back(healthy_read_back()).is_ok());
    let mut off = healthy_read_back();
    off.foreign_keys = 0;
    assert_eq!(verify_read_back(off).expect_err("foreign keys off").name, "foreign_keys");
    let mut journal = healthy_read_back();
    journal.journal_mode = "DELETE".to_string();
    journal.synchronous = 2;
    assert_eq!(
        verify_read_back(journal).expect_err("first mismatch reported").name,
        "journal_mode"
    );
}

#[test]
fn connection_manager_keeps_its_path() {
    let m = ConnectionManager::new("/tmp/index.sqlite");
    assert_eq!(m.db_path(), "/tmp/index.sqlite");
}

#[test]
fn headline_id_roundtrips_through_i64() {
    let id: HeadlineId = 42i64.into();
    assert_eq!(id, HeadlineId(42));
    let back: i64 = id.into();
    assert_eq!(back, 42);
}

#[test]
fn query_stub_returns_empty_without_erroring() {
    let result = query(&SearchQuery { text: "kubernetes ingress".to_string() });
    assert!(result.is_empty());
}

#[test]
fn for_headline_stub_returns_empty_without_erroring() {
    assert!(for_headline(HeadlineId(1)).is_empty());
}

#[test]
fn unlinked_mentions_stub_returns_empty_without_erroring() {
    assert!(unlinked_mentions(HeadlineId(1)).is_empty());
}

#[test]
fn adjacency_stub_returns_empty_without_erroring() {
    let result = adjacency(&GraphScope::WholeVault);
    assert!(result.nodes.is_empty());
    assert!(result.edges.is_empty());
}

#[test]
fn adjacency_stub_accepts_neighborhood_scope() {
    let result = adjacency(&GraphScope::NeighborhoodOf(HeadlineId(1), 2));
    assert!(result.nodes.is_empty());
    assert!(result.edges.is_empty());
}

#[test]
fn includes_deadline_overdue_and_due_today_but_not_future() {
    // The fetched rows (the future deadline is never selected); overdue is
    // decided here.
    let items = today_items(
        vec![
            row("a.org", "Overdue deadline", None, Some("2026-09-01")),
            row("a.org", "Due today", None, Some("2026-09-05")),
        ],
        "2026-09-05",
    );
    assert_eq!(items.len(), 2);
    assert!(items[0].overdue);
    assert!(!items[1].overdue);
    assert!(items.iter().all(|i| i.agenda_date == "2026-09-05"));
}

#[test]
fn today_item_carries_every_field() {
    let mut r = row("notes/a.org", "Write", Some("2026-09-05"), None);
    r.headline_id = 7;
    r.byte_start = 120;
    r.scheduled_time = Some("09:00".to_string());
    let item = today_item(r, "2026-09-05");
    assert_eq!(item.headline_id, 7);
    assert_eq!(item.file_path, "notes/a.org");
    assert_eq!(item.title, "Write");
    assert_eq!(item.byte_start, 120);
    assert_eq!(item.todo_keyword.as_deref(), Some("TODO"));
    assert_eq!(item.scheduled_date.as_deref(), Some("2026-09-05"));
    assert_eq!(item.scheduled_time.as_deref(), Some("09:00"));
    assert_eq!(item.deadline_date, None);
    assert!(!item.overdue);
    assert_eq!(item.agenda_date, "2026-09-05");
}

#[test]
fn week_includes_scheduled_within_window_boundaries_and_excludes_outside() {
    let items = week_items(
        vec![
            row("a.org", "Scheduled on start day", Some("2026-09-05"), None),
            row("a.org", "Scheduled on end day", Some("2026-09-11"), None),
        ],
        "2026-09-05",
        "2026-09-11",
    );
    let titles: Vec<_> = items.iter().map(|i| i.title.as_str()).collect();
    assert_eq!(titles, vec!["Scheduled on start day", "Scheduled on end day"]);
    assert_eq!(items[0].agenda_date, "2026-09-05");
    assert_eq!(items[1].agenda_date, "2026-09-11");
}

#[test]
fn week_deadline_overdue_collapses_to_start_day_due_within_window_on_own_day_future_excluded() {
    let items = week_items(
        vec![
            row("a.org", "Overdue deadline", None, Some("2026-09-01")),
            row("a.org", "Due mid-week", None, Some("2026-09-08")),
        ],
        "2026-09-05",
        "2026-09-11",
    );
    assert_eq!(items.len(), 2);
    assert_eq!(items[0].title, "Overdue deadline");
    assert!(items[0].overdue);
    assert_eq!(items[0].agenda_date, "2026-09-05");
    assert_eq!(items[1].title, "Due mid-week");
    assert!(!items[1].overdue);
    assert_eq!(items[1].agenda_date, "2026-09-08");
}

#[test]
fn week_scheduled_leg_wins_grouping_over_an_unrelated_overdue_deadline() {
    let items = week_items(
        vec![row("a.org", "Scheduled + stale deadline", Some("2026-09-07"), Some("2026-08-01"))],
        "2026-09-05",
        "2026-09-11",
    );
    assert_eq!(items.len(), 1);
    assert_eq!(items[0].agenda_date, "2026-09-07");
    assert!(items[0].overdue, "the overdue flag still reflects the stale deadline");
}

#[test]
fn week_scheduled_out_of_window_falls_back_to_in_window_deadline_day() {
    let items = week_items(
        vec![row("a.org", "Started earlier, due this week", Some("2026-09-01"), Some("2026-09-08"))],
        "2026-09-05",
        "2026-09-11",
    );
    assert_eq!(items.len(), 1);
    assert_eq!(items[0].agenda_date, "2026-09-08");
    assert!(!items[0].overdue);
}

#[test]
fn week_groups_by_date_then_file_then_document_position() {
    // Fetched in (file, position) order; the sort is by agenda date first.
    let items = week_items(
        vec![
            row("a.org", "a day1", Some("2026-09-05"), None),
            row("b.org", "b day2 first", Some("2026-09-06"), None),
            row("b.org", "b day2 second", Some("2026-09-06"), None),
        ],
        "2026-09-05",
        "2026-09-11",
    );
    let ordering: Vec<_> = items
        .iter()
        .map(|i| (i.agenda_date.as_str(), i.file_path.as_str(), i.title.as_str()))
        .collect();
    assert_eq!(
        ordering,
        vec![
            ("2026-09-05", "a.org", "a day1"),
            ("2026-09-06", "b.org", "b day2 first"),
            ("2026-09-06", "b.org", "b day2 second"),
        ]
    );
}

#[test]
fn week_sort_is_stable_across_files() {
    let items = week_items(
        vec![
            row("a.org", "a late", Some("2026-09-09"), None),
            row("a.org", "a overdue", None, Some("2026-08-30")),
            row("b.org", "b early", Some("2026-09-06"), None),
            row("b.org", "b late", Some("2026-09-09"), None),
            row("c.org", "c first day", Some("2026-09-05"), None),
        ],
        "2026-09-05",
        "2026-09-11",
    );
    let titles: Vec<_> = items.iter().map(|i| i.title.as_str()).collect();
    assert_eq!(titles, vec!["a overdue", "c first day", "b early", "a late", "b late"]);
}

fn item(title: &str, date: &str) -> AgendaItem {
    today_item(row("x.org", title, Some(date), None), date)
}

#[test]
fn sort_by_agenda_date_orders_bytewise_and_keeps_ties() {
    let sorted = sort_by_agenda_date(vec![
        item("3", "2026-10-01"),
        item("1", "2026-09-30"),
        item("4", "2026-10-01"),
        item("2", "2026-09-30"),
    ]);
    let titles: Vec<_> = sorted.iter().map(|i| i.title.as_str()).collect();
    assert_eq!(titles, vec!["1", "2", "3", "4"]);
    assert!(sort_by_agenda_date(Vec::new()).is_empty());
}

#[test]
fn inbox_limit_saturates() {
    assert_eq!(inbox_limit(5), 5);
    assert_eq!(inbox_limit(0), 0);
    assert_eq!(inbox_limit(usize::MAX), i64::MAX);
}

#[test]
fn dashboard_sections_are_today_rows() {
    let params = DashboardParams {
        today: "2026-09-05".to_string(),
        today_tag: "today".to_string(),
        inbox_preview_count: 5,
    };
    let inbox = vec![InboxItem {
        headline_id: 3,
        file_path: "inbox.org".to_string(),
        title: "Capture".to_string(),
        byte_start: 0,
        todo_keyword: None,
    }];
    let clock = Some(ActiveClock {
        headline_id: 4,
        file_path: "a.org".to_string(),
        title: "Clocked in".to_string(),
        byte_start: 10,
        start_at: "2026-09-05T09:00:00".to_string(),
    });
    let dash = assemble_dashboard(
        &params,
        vec![row("a.org", "Scheduled today", Some("2026-09-05"), None)],
        vec![
            row("a.org", "Overdue", None, Some("2026-09-01")),
            row("a.org", "Due today", None, Some("2026-09-05")),
        ],
        vec![row("a.org", "Tagged today", None, None)],
        inbox.clone(),
        clock.clone(),
    );
    assert_eq!(dash.scheduled.len(), 1);
    assert_eq!(dash.scheduled[0].title, "Scheduled today");
    assert!(dash.deadlines[0].overdue);
    assert!(!dash.deadlines[1].overdue);
    assert_eq!(dash.today_tag[0].agenda_date, "2026-09-05");
    assert_eq!(dash.inbox, inbox);
    assert_eq!(dash.active_clock, clock);
}

#[test]
fn fresh_stamped_index_classifies_as_ours() {
    assert_eq!(classify_identity(APPLICATION_ID, EXPECTED_USER_VERSION, false), IndexIdentity::Ours);
}

#[test]
fn stamped_index_at_wrong_user_version_classifies_as_mismatch() {
    assert_eq!(classify_identity(APPLICATION_ID, 2, true), IndexIdentity::VersionMismatch);
}

#[test]
fn unstamped_sqlite_file_classifies_as_foreign() {
    assert_eq!(classify_identity(0, 0, false), IndexIdentity::Foreign);
    assert_eq!(classify_identity(0, EXPECTED_USER_VERSION, false), IndexIdentity::Foreign);
    assert_eq!(classify_identity(7, EXPECTED_USER_VERSION, true), IndexIdentity::Foreign);
}

#[test]
fn unstamped_index_with_full_schema_is_ours_unstamped() {
    assert!(needs_schema_check(0, EXPECTED_USER_VERSION));
    assert!(!needs_schema_check(APPLICATION_ID, EXPECTED_USER_VERSION));
    assert_eq!(classify_identity(0, EXPECTED_USER_VERSION, true), IndexIdentity::OursUnstamped);
}

#[test]
fn schema_check_needs_every_table() {
    let full: Vec<String> = [
        "_schema_version", "files", "headlines", "tags", "properties", "clock_entries", "links",
        "vault_meta", "fts_headlines", "fts_content", "fts_headlines_data",
    ]
    .iter()
    .map(|s| s.to_string())
    .collect();
    assert!(has_our_schema(&full));
    let missing: Vec<String> = full.iter().filter(|t| *t != "links").cloned().collect();
    assert!(!has_our_schema(&missing));
    assert!(!has_our_schema(&Vec::new()));
}

#[test]
fn integrity_verdicts() {
    let ok = page_check_verdict(vec!["ok".to_string()]);
    assert!(ok.ok);
    assert_eq!(ok.name, "integrity_check");
    assert_eq!(ok.detail, None);
    let bad = page_check_verdict(vec!["row 3 missing".to_string(), "page 9 corrupt".to_string()]);
    assert!(!bad.ok);
    assert_eq!(bad.detail.as_deref(), Some("row 3 missing; page 9 corrupt"));
    assert!(!page_check_verdict(Vec::new()).ok);

    let v = vec![violation("tags", Some(4), "headlines"), violation("links", None, "files")];
    assert_eq!(v[0], "tags rowid 4 -> headlines");
    assert_eq!(v[1], "links -> files");
    let fk = foreign_key_verdict(v);
    assert!(!fk.ok);
    assert_eq!(fk.detail.as_deref(), Some("tags rowid 4 -> headlines; links -> files"));
    assert!(foreign_key_verdict(Vec::new()).ok);

    let fts = fts_verdict("fts_content", Some("database disk image is malformed".to_string()));
    assert!(!fts.ok);
    assert_eq!(fts.name, "fts_content");

    let report = integrity_report(vec![ok.clone(), fts_verdict("fts_headlines", None)]);
    assert!(report.ok);
    let report = integrity_report(vec![ok, fts]);
    assert!(!report.ok);
    assert_eq!(report.checks.len(), 2);
}

#[test]
fn join_texts_matches_slice_join() {
    let parts = vec!["a".to_string(), "b".to_string(), "c".to_string()];
    assert_eq!(join_texts(&parts, "; "), parts.join("; "));
    assert_eq!(join_texts(&Vec::new(), "; "), "");
}

#[test]
fn unchanged_needs_same_mtime_and_size() {
    assert!(is_unchanged(Some((5, 10)), 5, 10));
    assert!(!is_unchanged(Some((5, 11)), 5, 10));
    assert!(!is_unchanged(Some((6, 10)), 5, 10));
    assert!(!is_unchanged(None, 5, 10));
}
