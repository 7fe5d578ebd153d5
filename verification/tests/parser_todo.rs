use orgsidian::semantic::todo::{parse_directive_value, TodoConfig};

#[test]
fn pipe_splits_active_and_done() {
    let seq = parse_directive_value("DRAFT REVIEW | PUBLISHED").expect("keywords");
    assert_eq!(seq.active, ["DRAFT", "REVIEW"]);
    assert_eq!(seq.done, ["PUBLISHED"]);
}

#[test]
fn no_pipe_makes_last_keyword_done() {
    let seq = parse_directive_value("ONE TWO THREE").expect("keywords");
    assert_eq!(seq.active, ["ONE", "TWO"]);
    assert_eq!(seq.done, ["THREE"]);
}

#[test]
fn single_keyword_without_pipe_is_done_only() {
    let seq = parse_directive_value("DONE").expect("keywords");
    assert!(seq.active.is_empty());
    assert_eq!(seq.done, ["DONE"]);
}

#[test]
fn fast_access_suffixes_are_stripped() {
    let seq = parse_directive_value("TODO(t) WAIT(w@/!) | DONE(d!)").expect("keywords");
    assert_eq!(seq.active, ["TODO", "WAIT"]);
    assert_eq!(seq.done, ["DONE"]);
}

#[test]
fn empty_value_is_ignored_and_default_kept() {
    assert_eq!(parse_directive_value("   "), None);
    let cfg = TodoConfig::from_directive_values(["   "]);
    assert_eq!(cfg, TodoConfig::default());
}

#[test]
fn classify_is_case_sensitive() {
    let cfg = TodoConfig::default();
    assert_eq!(cfg.classify("TODO"), Some(false));
    assert_eq!(cfg.classify("WAITING"), Some(true));
    assert_eq!(cfg.classify("Todo"), None);
}

#[test]
fn next_cycles_within_owning_sequence() {
    let cfg = TodoConfig::from_directive_values(["A | B", "X Y | Z"]);
    assert_eq!(cfg.next(None), Some("A"));
    assert_eq!(cfg.next(Some("B")), Some("A"));
    assert_eq!(cfg.next(Some("Z")), Some("X"));
    assert_eq!(cfg.next(Some("missing")), None);
}
