use orgsidian::semantic::link::{scan_links, LinkKind};

#[test]
fn classifies_all_bracket_forms() {
    let text = "[[id:abc]] [[file:notes.org]] [[https://x.dev][X]] [[wiki page]]";
    let links = scan_links(text, 0);
    assert_eq!(links.len(), 4);
    assert_eq!(links[0].kind, LinkKind::Id);
    assert_eq!(links[1].kind, LinkKind::File);
    assert_eq!(links[2].kind, LinkKind::Url);
    assert_eq!(links[2].description.as_deref(), Some("X"));
    assert_eq!(links[3].kind, LinkKind::Wiki);
    assert_eq!(links[3].target, "wiki page");
}

#[test]
fn bracket_url_is_not_double_reported_as_plain() {
    let links = scan_links("[[https://x.dev][see https://x.dev]]", 0);
    assert_eq!(links.len(), 1);
    assert_eq!(links[0].kind, LinkKind::Url);
}

#[test]
fn plain_url_trims_trailing_punctuation() {
    let links = scan_links("see https://example.com/a, then http://b.io.", 10);
    assert_eq!(links.len(), 2);
    assert_eq!(links[0].target, "https://example.com/a");
    assert_eq!(links[1].target, "http://b.io");
    assert_eq!(links[1].span, 10 + 32..10 + 43);
}

#[test]
fn degenerate_brackets_are_not_links() {
    assert!(scan_links("[[]]", 0).is_empty(), "empty target");
    assert!(scan_links("[[never closed", 0).is_empty(), "unterminated");
    assert!(
        scan_links("[fn:1] [cite:@k] [x]", 0).is_empty(),
        "single brackets"
    );
    // `][` without a terminating `]]` is not a link either.
    assert!(scan_links("[[a][b", 0).is_empty());
}

#[test]
fn plain_url_requires_word_boundary() {
    // no mid-word matches.
    assert!(scan_links("xhttp://foo deadhttps://evil", 0).is_empty());
    let links = scan_links("(http://a.io) e:https://b.io", 0);
    assert_eq!(links.len(), 2, "{links:?}");
    assert_eq!(links[0].target, "http://a.io");
    assert_eq!(links[1].target, "https://b.io");
}

#[test]
fn scheme_alone_is_not_a_link() {
    // empty host after trimming is not a link.
    assert!(scan_links("see http://. and https:// done", 0).is_empty());
}

#[test]
fn bracket_links_do_not_cross_newlines() {
    // an unterminated `[[` must not swallow the
    // following lines; wrapped links are documented out of scope.
    assert!(scan_links("[[target\nnext line]] text", 0).is_empty());
    assert!(scan_links("[[a][desc\nwrapped]] text", 0).is_empty());
}

#[test]
fn scheme_matching_is_case_sensitive() {
    // Documented org-faithful posture: link types are lowercase.
    let links = scan_links("[[HTTP://x]] [[File:y]] HTTP://z", 0);
    assert_eq!(links.len(), 2, "{links:?}");
    assert_eq!(links[0].kind, LinkKind::Wiki);
    assert_eq!(links[1].kind, LinkKind::Wiki);
}

#[test]
fn multibyte_text_around_links_is_safe() {
    let text = "приветствие [[id:é]] café http://x.io/ñ done";
    let links = scan_links(text, 0);
    assert_eq!(links.len(), 2);
    assert_eq!(links[0].target, "id:é");
    assert_eq!(links[1].target, "http://x.io/ñ");
}
