use orgsidian::index::agenda::AgendaItem;
use orgsidian::semantic::timestamp::Date;
use orgsidian::shell::dashboard_prefs::{dashboard_prefs_path, DashboardSection, TodayDashboardPrefs};
use orgsidian::shell::editor_prefs::editor_prefs_path;
use orgsidian::shell::{
    check_target_listing, is_org_entry, join_path, no_active_vault, org_files_refusal, resolve_open_path, resolve_planned,
    resolve_today, set_scheduled, AgendaItemDto, ConflictDetected, PlanningEdit, PlanningKind,
    ShellError, TimestampInput,
};

#[test]
fn dashboard_prefs_prefs_path_lands_in_vault_dotdir() {
    let p = dashboard_prefs_path("/vaults/work");
    assert_eq!(
        p, "/vaults/work/.orgsidian/today-prefs.json",
        "today-prefs must live inside the Vault's .orgsidian dir"
    );
}

#[test]
fn section_keys_are_stable() {
    assert_eq!(DashboardSection::Scheduled.key(), "scheduled");
    assert_eq!(DashboardSection::Deadline.key(), "deadline");
    assert_eq!(DashboardSection::TodayTag.key(), "todayTag");
    assert_eq!(DashboardSection::InboxPreview.key(), "inboxPreview");
    assert_eq!(DashboardSection::ActiveClock.key(), "activeClock");
    let all = [
        DashboardSection::Scheduled,
        DashboardSection::Deadline,
        DashboardSection::TodayTag,
        DashboardSection::InboxPreview,
        DashboardSection::ActiveClock,
    ];
    assert_eq!(all.len(), 5);
}

#[test]
fn prefs_default_is_all_expanded() {
    assert_eq!(
        TodayDashboardPrefs::default(),
        TodayDashboardPrefs {
            scheduled: false,
            deadline: false,
            today_tag: false,
            inbox_preview: false,
            active_clock: false,
        }
    );
}

#[test]
fn stored_prefs_collapse_only_on_true() {
    let p = TodayDashboardPrefs::from_stored(Some(true), Some(false), None, Some(true), None);
    assert_eq!(
        p,
        TodayDashboardPrefs {
            scheduled: true,
            deadline: false,
            today_tag: false,
            inbox_preview: true,
            active_clock: false,
        }
    );
}

#[test]
fn editor_prefs_prefs_path_lands_in_vault_dotdir() {
    let p = editor_prefs_path("/vaults/work");
    assert_eq!(
        p, "/vaults/work/.orgsidian/editor-prefs.json",
        "editor-prefs must live inside the Vault's .orgsidian dir"
    );
}

#[test]
fn join_path_follows_path_join() {
    assert_eq!(join_path("/a/b", "c"), "/a/b/c");
    assert_eq!(join_path("/a/b/", "c"), "/a/b/c");
    assert_eq!(join_path("", "c"), "c");
    assert_eq!(join_path("/a", "/etc/x"), "/etc/x");
    assert_eq!(join_path("/a", ""), "/a/");
}

#[test]
fn resolve_open_path_joins_relative_path_onto_vault_root() {
    let resolved = resolve_open_path("sub/notes.org", Some("/vault/root")).expect("resolves");
    assert_eq!(resolved, "/vault/root/sub/notes.org");
}

#[test]
fn resolve_open_path_reads_absolute_path_unchanged() {
    let path = "/fixtures/0002_map.org";
    assert_eq!(resolve_open_path(path, Some("/some/vault")).expect("absolute"), path);
    assert_eq!(resolve_open_path(path, None).expect("absolute, no vault"), path);
}

#[test]
fn resolve_open_path_relative_with_no_vault_is_vault_error() {
    let err = resolve_open_path("sub/notes.org", None).expect_err("no vault");
    assert!(matches!(err, ShellError::Vault { .. }), "got {err:?}");
    assert_eq!(err, no_active_vault());
}

/// Apply a wire edit to `source`, as the editor does.
fn apply(source: &str, edit: &PlanningEdit) -> String {
    let (from, to) = (edit.from as usize, edit.to as usize);
    format!("{}{}{}", &source[..from], edit.insert, &source[to..])
}

#[test]
fn set_scheduled_resolves_relative_shortcut_via_today() {
    let source = "* Plan the week\nBody\n";
    let edit = set_scheduled(
        source,
        0,
        PlanningKind::Scheduled,
        Some(TimestampInput { date: "+1w".to_string(), time: None }),
        "2026-05-19",
    )
    .expect("set_scheduled should succeed");
    assert_eq!(apply(source, &edit), "* Plan the week\nSCHEDULED: <2026-05-26 Tue>\nBody\n");
}

#[test]
fn set_scheduled_writes_literal_deadline_with_time() {
    let source = "* Ship it\n";
    let edit = set_scheduled(
        source,
        0,
        PlanningKind::Deadline,
        Some(TimestampInput { date: "2026-05-19".to_string(), time: Some("17:30".to_string()) }),
        "2026-05-19",
    )
    .expect("set_scheduled should succeed");
    assert_eq!(apply(source, &edit), "* Ship it\nDEADLINE: <2026-05-19 Tue 17:30>\n");
}

#[test]
fn set_scheduled_removes_when_timestamp_null() {
    let source = "* Task\nSCHEDULED: <2026-05-19 Tue>\nBody\n";
    let edit = set_scheduled(source, 0, PlanningKind::Scheduled, None, "2026-05-19")
        .expect("removal should succeed");
    assert_eq!(apply(source, &edit), "* Task\nBody\n");
}

#[test]
fn set_scheduled_rejects_malformed_date() {
    let err = set_scheduled(
        "* Task\n",
        0,
        PlanningKind::Scheduled,
        Some(TimestampInput { date: "nonsense".to_string(), time: None }),
        "2026-05-19",
    )
    .expect_err("a date that is neither a shortcut nor ISO must error");
    assert!(matches!(err, ShellError::Parse { .. }), "got {err:?}");
    let ShellError::Parse { file, reason } = err else { unreachable!() };
    assert_eq!(file, "<editor-buffer>");
    assert_eq!(reason, "unrecognized date \"nonsense\"");
}

#[test]
fn set_scheduled_rejects_bad_time_and_bad_today() {
    let err = set_scheduled(
        "* Task\n",
        0,
        PlanningKind::Scheduled,
        Some(TimestampInput { date: "today".to_string(), time: Some("25:99".to_string()) }),
        "2026-05-19",
    )
    .expect_err("an invalid time must error");
    let ShellError::Parse { reason, .. } = err else { panic!("parse error expected") };
    assert!(reason.starts_with("invalid time \"25:99\": "), "{reason}");

    let err = resolve_planned(&TimestampInput { date: "today".to_string(), time: None }, "05/19/2026")
        .expect_err("a bad today must error");
    let ShellError::Parse { reason, .. } = err else { panic!("parse error expected") };
    assert!(reason.starts_with("invalid `today` \"05/19/2026\": "), "{reason}");
}

#[test]
fn empty_time_means_no_time() {
    let p = resolve_planned(
        &TimestampInput { date: "2026-05-20".to_string(), time: Some(String::new()) },
        "2026-05-19",
    )
    .expect("resolves");
    assert_eq!(p.date, Date::from_ymd_opt(2026, 5, 20).unwrap());
    assert_eq!(p.time, None);
}

#[test]
fn resolve_today_accepts_iso_date() {
    let date = resolve_today("2026-09-05").expect("valid ISO date");
    assert_eq!(date, Date::from_ymd_opt(2026, 9, 5).unwrap());
}

#[test]
fn resolve_today_rejects_malformed_date() {
    let err = resolve_today("not-a-date").expect_err("malformed date must error");
    assert!(matches!(err, ShellError::Parse { .. }), "got {err:?}");
}

#[test]
fn agenda_item_dto_projects_every_field() {
    let item = AgendaItem {
        headline_id: 42,
        file_path: "a.org".to_string(),
        title: "Pay rent".to_string(),
        byte_start: 128,
        todo_keyword: Some("TODO".to_string()),
        scheduled_date: Some("2026-09-05".to_string()),
        scheduled_time: None,
        deadline_date: Some("2026-09-01".to_string()),
        deadline_time: Some("17:00".to_string()),
        overdue: true,
        agenda_date: "2026-09-05".to_string(),
    };
    let dto = AgendaItemDto::from(item.clone());
    assert_eq!(dto.headline_id, item.headline_id as u32);
    assert_eq!(dto.file_path, item.file_path);
    assert_eq!(dto.title, item.title);
    assert_eq!(dto.byte_start, item.byte_start as u32);
    assert_eq!(dto.todo_keyword, item.todo_keyword);
    assert_eq!(dto.scheduled_date, item.scheduled_date);
    assert_eq!(dto.scheduled_time, item.scheduled_time);
    assert_eq!(dto.deadline_date, item.deadline_date);
    assert_eq!(dto.deadline_time, item.deadline_time);
    assert_eq!(dto.overdue, item.overdue);
    assert_eq!(dto.agenda_date, item.agenda_date);
}

#[test]
fn conflict_event_carries_lengths_only() {
    let event = ConflictDetected::from_parts("/v/notes.org".to_string(), "ab".repeat(32), 14, 14);
    assert_eq!(event.path, "/v/notes.org");
    assert_eq!(event.state.ancestor_hash.len(), 64);
    assert_eq!(event.state.external_len, 14);
    assert_eq!(event.state.buffer_len, 14);
}

#[test]
fn org_entries_are_regular_files_named_dot_org() {
    assert!(is_org_entry(true, "notes.org"));
    assert!(is_org_entry(true, "NOTES.ORG"));
    assert!(is_org_entry(true, "a.b.Org"));
    assert!(!is_org_entry(false, "notes.org"));
    assert!(!is_org_entry(true, "readme.txt"));
    assert!(!is_org_entry(true, ".org"), "a dotfile has no extension");
    assert!(!is_org_entry(true, "org"));
    assert!(!is_org_entry(true, "notes.orgx"));
    assert!(!is_org_entry(true, ".."));
}

#[test]
fn ensure_target_has_no_org_files_rejects_a_populated_folder() {
    let err = org_files_refusal("/tmp/vault");
    let ShellError::Vault { reason } = err else { unreachable!() };
    assert!(reason.contains(".org"), "{reason}");
    assert!(
        reason.contains("Use my own folder"),
        "should steer the user toward the existing-Vault path: {reason}"
    );
    assert!(reason.starts_with("/tmp/vault already contains .org files"));
}

#[test]
fn target_listing_is_refused_only_for_a_top_level_org_file() {
    let entries = |list: &[(bool, &str)]| -> Vec<(bool, String)> {
        list.iter().map(|(f, n)| (*f, n.to_string())).collect()
    };
    assert!(check_target_listing("/v", &entries(&[])).is_ok());
    assert!(check_target_listing("/v", &entries(&[(true, "notes.txt"), (false, "sub.org")])).is_ok());
    assert!(check_target_listing("/v", &entries(&[(true, ".org")])).is_ok());
    let err = check_target_listing("/v", &entries(&[(true, "a.md"), (true, "Inbox.ORG")])).unwrap_err();
    let ShellError::Vault { reason } = err else { panic!("vault error expected") };
    assert!(reason.starts_with("/v already contains .org files"));
    assert!(reason.contains("Use my own folder"));
}
