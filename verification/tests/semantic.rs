use orgsidian::semantic::analyze;
use orgsidian::semantic::drawer::{DrawerKind, Duration};
use orgsidian::semantic::timestamp::{Date, RepeaterKind, Time, TimeUnit};
use orgsidian::semantic::todo::TodoConfig;
use orgsidian::semantic::tree::{FieldName, NodeKind, SyntaxNode};

fn node(
    kind: NodeKind,
    field: Option<FieldName>,
    start: usize,
    end: usize,
    children: Vec<SyntaxNode>,
) -> SyntaxNode {
    SyntaxNode { kind, field, named: true, start, end, children }
}

fn line_end(src: &str, at: usize) -> usize {
    match src[at..].find('\n') {
        Some(i) => at + i,
        None => src.len(),
    }
}

/// Whitespace-separated words of `src[a..b)` as `(start, end)` ranges.
fn words(src: &str, a: usize, b: usize) -> Vec<(usize, usize)> {
    let bytes = src.as_bytes();
    let mut out = Vec::new();
    let mut i = a;
    while i < b {
        while i < b && bytes[i] == b' ' {
            i += 1;
        }
        let s = i;
        while i < b && bytes[i] != b' ' {
            i += 1;
        }
        if i > s {
            out.push((s, i));
        }
    }
    out
}

fn stars_at(src: &str, at: usize) -> usize {
    let rest = &src.as_bytes()[at..];
    let n = rest.iter().take_while(|b| **b == b'*').count();
    if n > 0 && rest.get(n) == Some(&b' ') {
        n
    } else {
        0
    }
}

/// A headline line: stars, the item's words, and a trailing `:a:b:` tag list.
fn headline_node(src: &str, start: usize, level: usize) -> SyntaxNode {
    let le = line_end(src, start);
    let mut ws = words(src, start + level + 1, le);
    let mut children = vec![node(NodeKind::Stars, Some(FieldName::Stars), start, start + level, Vec::new())];
    let mut tags = None;
    if let Some(&(ts, te)) = ws.last() {
        let t = &src[ts..te];
        if t.len() > 2 && t.starts_with(':') && t.ends_with(':') {
            ws.pop();
            let mut tag_nodes = Vec::new();
            let mut p = ts + 1;
            for name in t[1..t.len() - 1].split(':') {
                tag_nodes.push(node(NodeKind::Tag, Some(FieldName::Tag), p, p + name.len(), Vec::new()));
                p += name.len() + 1;
            }
            tags = Some(node(NodeKind::TagList, Some(FieldName::Tags), ts, te, tag_nodes));
        }
    }
    if let (Some(first), Some(last)) = (ws.first(), ws.last()) {
        let word_nodes = ws.iter().map(|&(s, e)| node(NodeKind::Other, None, s, e, Vec::new())).collect();
        children.push(node(NodeKind::Item, Some(FieldName::Item), first.0, last.1, word_nodes));
    }
    if let Some(t) = tags {
        children.push(t);
    }
    node(NodeKind::Headline, Some(FieldName::Headline), start, le, children)
}

/// The preamble body, with a directive node per `#+NAME: value` line.
fn preamble_node(src: &str, end: usize) -> SyntaxNode {
    let mut children = Vec::new();
    let mut at = 0;
    while at < end {
        let le = line_end(src, at);
        let line = &src[at..le];
        if let Some(rest) = line.strip_prefix("#+") {
            if let Some(colon) = rest.find(':') {
                let name = node(NodeKind::Other, Some(FieldName::Name), at + 2, at + 2 + colon, Vec::new());
                let value = node(NodeKind::Other, Some(FieldName::Value), at + 3 + colon, le, Vec::new());
                children.push(node(NodeKind::Directive, None, at, le, vec![name, value]));
            }
        }
        at = le + 1;
    }
    node(NodeKind::Other, Some(FieldName::Body), 0, end, children)
}

fn tree(src: &str) -> SyntaxNode {
    let mut heads = Vec::new();
    let mut at = 0;
    while at < src.len() {
        let n = stars_at(src, at);
        if n > 0 {
            heads.push((at, n));
        }
        at = line_end(src, at) + 1;
    }
    let mut children = Vec::new();
    let first = heads.first().map(|h| h.0).unwrap_or(src.len());
    if first > 0 {
        children.push(preamble_node(src, first));
    }
    let mut i = 0;
    while i < heads.len() {
        let (sec, next) = section(src, &heads, i);
        children.push(sec);
        i = next;
    }
    node(NodeKind::Document, None, 0, src.len(), children)
}

/// The end of the stamp starting at `at` (through a `--` second half).
fn stamp_end(src: &str, at: usize) -> usize {
    let close = if src.as_bytes()[at] == b'<' { '>' } else { ']' };
    let mut e = at + src[at..].find(close).map(|i| i + 1).unwrap_or(src.len() - at);
    if src[e..].starts_with("--") && e + 2 < src.len() {
        let second = e + 2;
        let close2 = if src.as_bytes()[second] == b'<' { '>' } else { ']' };
        if let Some(i) = src[second..].find(close2) {
            e = second + i + 1;
        }
    }
    e
}

/// A planning line: one entry per `KEYWORD: <stamp>`.
fn plan_node(src: &str, start: usize, end: usize) -> SyntaxNode {
    let mut entries = Vec::new();
    let mut at = start;
    while at < end {
        let rest = &src[at..end];
        let found = ["SCHEDULED:", "DEADLINE:", "CLOSED:"]
            .iter()
            .filter_map(|w| rest.find(w).map(|i| (i, w.len())))
            .min();
        let Some((i, wl)) = found else { break };
        let kw = at + i;
        let mut ts = kw + wl;
        while ts < end && src.as_bytes()[ts] == b' ' {
            ts += 1;
        }
        let te = stamp_end(src, ts).min(end);
        let name = node(NodeKind::Other, Some(FieldName::Name), kw, kw + wl - 1, Vec::new());
        let stamp = node(NodeKind::Timestamp, Some(FieldName::Timestamp), ts, te, Vec::new());
        entries.push(node(NodeKind::Entry, None, kw, te, vec![name, stamp]));
        at = te;
    }
    node(NodeKind::Plan, Some(FieldName::Plan), start, end, entries)
}

/// A `:NAME:` … `:END:` drawer starting at the line `at`, and the offset
/// after its `:END:` line.
fn drawer_lines(src: &str, at: usize, limit: usize) -> Option<(usize, usize, usize, usize)> {
    let le = line_end(src, at);
    let line = &src[at..le];
    if !(line.len() > 2 && line.starts_with(':') && line.ends_with(':')) {
        return None;
    }
    let mut p = (le + 1).min(limit);
    while p < limit {
        let e = line_end(src, p);
        if &src[p..e] == ":END:" {
            return Some((le, p, e, (e + 1).min(limit)));
        }
        p = e + 1;
    }
    None
}

fn section(src: &str, heads: &[(usize, usize)], i: usize) -> (SyntaxNode, usize) {
    let (start, level) = heads[i];
    let mut j = i + 1;
    while j < heads.len() && heads[j].1 > level {
        j += 1;
    }
    let end = if j < heads.len() { heads[j].0 } else { src.len() };
    let first_child = if i + 1 < j { heads[i + 1].0 } else { end };
    let mut children = vec![headline_node(src, start, level)];
    let mut at = (line_end(src, start) + 1).min(first_child);
    if at < first_child {
        let le = line_end(src, at);
        let line = &src[at..le];
        if ["SCHEDULED:", "DEADLINE:", "CLOSED:"].iter().any(|w| line.starts_with(w)) {
            children.push(plan_node(src, at, le));
            at = (le + 1).min(first_child);
        }
    }
    if at < first_child && src[at..].starts_with(":PROPERTIES:\n") {
        if let Some((name_end, end_line, end_end, next)) = drawer_lines(src, at, first_child) {
            let mut props = Vec::new();
            let mut p = name_end + 1;
            while p < end_line {
                let e = line_end(src, p);
                let line = &src[p..e];
                if let Some(k) = line[1..].find(':') {
                    let name = node(NodeKind::Other, Some(FieldName::Name), p + 1, p + 1 + k, Vec::new());
                    let value = node(NodeKind::Other, Some(FieldName::Value), p + 2 + k, e, Vec::new());
                    props.push(node(NodeKind::Property, None, p, e, vec![name, value]));
                }
                p = e + 1;
            }
            let _ = end_end;
            children.push(node(NodeKind::PropertyDrawer, Some(FieldName::PropertyDrawer), at, next, props));
            at = next;
        }
    }
    if at < first_child {
        let mut drawers = Vec::new();
        let mut p = at;
        while p < first_child {
            match drawer_lines(src, p, first_child) {
                Some((name_end, end_line, _end_end, next)) => {
                    let name = node(NodeKind::Other, Some(FieldName::Name), p + 1, name_end - 1, Vec::new());
                    let mut kids = vec![name];
                    if end_line > name_end + 1 {
                        kids.push(node(NodeKind::Other, Some(FieldName::Contents), name_end + 1, end_line, Vec::new()));
                    }
                    drawers.push(node(NodeKind::Drawer, None, p, next, kids));
                    p = next;
                }
                None => p = (line_end(src, p) + 1).min(first_child),
            }
        }
        children.push(node(NodeKind::Other, Some(FieldName::Body), at, first_child, drawers));
    }
    let mut k = i + 1;
    while k < j {
        let (sub, next) = section(src, heads, k);
        children.push(sub);
        k = next;
    }
    (node(NodeKind::Section, Some(FieldName::Subsection), start, end, children), j)
}

#[test]
fn semantic_heading_levels_with_todo_states() {
    let src = "* TODO One\n** NEXT Two\n*** DONE Three\n**** WAITING Four\n\
               ***** TODO Five\n****** DONE Six\n";
    let doc = analyze(&tree(src), src);
    let expected = [
        (1u8, "TODO", false, "One"),
        (2, "NEXT", false, "Two"),
        (3, "DONE", true, "Three"),
        (4, "WAITING", true, "Four"),
        (5, "TODO", false, "Five"),
        (6, "DONE", true, "Six"),
    ];
    let mut current = &doc.headlines;
    for (level, keyword, done, title) in expected {
        assert_eq!(current.len(), 1, "exactly one headline at level {level}");
        let h = &current[0];
        assert_eq!(h.level, level);
        let todo = h.todo_state.as_ref().expect("keyword must be recognized");
        assert_eq!(todo.keyword, keyword);
        assert_eq!(todo.done, done, "{keyword} done-class");
        assert_eq!(h.title, title);
        current = &h.children;
    }

    // Default cycling order TODO → NEXT → DONE → WAITING → TODO (wrap).
    let cfg = TodoConfig::default();
    assert_eq!(cfg.next(None), Some("TODO"));
    assert_eq!(cfg.next(Some("TODO")), Some("NEXT"));
    assert_eq!(cfg.next(Some("NEXT")), Some("DONE"));
    assert_eq!(cfg.next(Some("DONE")), Some("WAITING"));
    assert_eq!(cfg.next(Some("WAITING")), Some("TODO"), "must wrap");

    // An in-file #+TODO: REPLACES the default set for that document.
    let custom = "#+TODO: DRAFT | PUBLISHED\n* DRAFT Post\n* TODO Plain words\n";
    let doc = analyze(&tree(custom), custom);
    let h0 = &doc.headlines[0];
    let todo = h0.todo_state.as_ref().expect("DRAFT must be recognized");
    assert_eq!(todo.keyword, "DRAFT");
    assert!(!todo.done);
    assert_eq!(h0.title, "Post");
    let h1 = &doc.headlines[1];
    assert!(h1.todo_state.is_none(), "unconfigured keyword is title text");
    assert_eq!(h1.title, "TODO Plain words");
    assert_eq!(doc.todo_config.next(None), Some("DRAFT"));
    assert_eq!(doc.todo_config.next(Some("DRAFT")), Some("PUBLISHED"));
    assert_eq!(doc.todo_config.next(Some("PUBLISHED")), Some("DRAFT"));
    assert_eq!(doc.todo_config.next(Some("TODO")), None, "unknown keyword");
}

#[test]
fn semantic_tags() {
    let src = "* One :tag:\n* Two :tag1:tag2:\n";
    let doc = analyze(&tree(src), src);
    let single: Vec<&str> = doc.headlines[0].tags.iter().map(|t| t.name.as_str()).collect();
    assert_eq!(single, ["tag"]);
    let multi: Vec<&str> = doc.headlines[1].tags.iter().map(|t| t.name.as_str()).collect();
    assert_eq!(multi, ["tag1", "tag2"]);
    // Tag spans point at the bare name inside the source.
    let t0 = &doc.headlines[0].tags[0];
    assert_eq!(&src[t0.span.clone()], "tag");
}

#[test]
fn semantic_todo_directive_without_pipe() {
    let src = "#+TODO: ONE TWO THREE\n* THREE x\n* ONE y\n";
    let doc = analyze(&tree(src), src);
    let done = doc.headlines[0].todo_state.as_ref().expect("THREE recognized");
    assert!(done.done, "last keyword without pipe is the done class");
    let active = doc.headlines[1].todo_state.as_ref().expect("ONE recognized");
    assert!(!active.done);
    assert_eq!(doc.todo_config.next(Some("THREE")), Some("ONE"), "wraps");
}

#[test]
fn semantic_multiple_todo_directives_accumulate() {
    let src = "#+TODO: A B | C\n#+SEQ_TODO: X | Y\n* X q\n* B r\n";
    let doc = analyze(&tree(src), src);
    assert!(doc.headlines[0].todo_state.is_some(), "2nd sequence recognized");
    assert!(doc.headlines[1].todo_state.is_some(), "1st sequence recognized");
    assert_eq!(doc.todo_config.next(Some("C")), Some("A"));
    assert_eq!(doc.todo_config.next(Some("X")), Some("Y"));
    assert_eq!(doc.todo_config.next(Some("Y")), Some("X"));
}

#[test]
fn semantic_preamble_and_empty_document() {
    let src = "#+TITLE: My doc\nIntro paragraph.\n* First\n";
    let doc = analyze(&tree(src), src);
    let pre = doc.preamble.as_ref().expect("preamble present");
    assert_eq!(pre.text, "#+TITLE: My doc\nIntro paragraph.\n");
    assert_eq!(pre.span, 0..pre.text.len());
    assert!(
        pre.directives.iter().any(|d| d.name == "TITLE" && d.value == "My doc"),
        "{:?}",
        pre.directives
    );

    let empty = analyze(&tree(""), "");
    assert!(empty.headlines.is_empty());
    assert!(empty.preamble.is_none());
    assert_eq!(empty.todo_config, TodoConfig::default());
}

#[test]
fn semantic_lowercase_todo_directive_name() {
    let src = "#+todo: DRAFT | FINAL\n* DRAFT x\n";
    let doc = analyze(&tree(src), src);
    let todo = doc.headlines[0].todo_state.as_ref().expect("DRAFT recognized via #+todo:");
    assert!(!todo.done);
    assert_eq!(doc.todo_config.next(Some("DRAFT")), Some("FINAL"));
}

fn date(y: i32, m: u32, d: u32) -> Date {
    Date::from_ymd_opt(y, m, d).expect("test dates are valid")
}

fn time(h: u32, m: u32) -> Time {
    Time::from_hm_opt(h, m).expect("test times are valid")
}

#[test]
fn semantic_scheduled_timestamp() {
    let src = "* Active\nSCHEDULED: <2026-06-10 Wed 10:00>\n\
               * Inactive\nSCHEDULED: [2026-06-11 Thu]\n";
    let doc = analyze(&tree(src), src);
    let active = doc.headlines[0].scheduled.as_ref().expect("scheduled set");
    assert!(active.active, "<…> is active");
    assert_eq!(active.date, date(2026, 6, 10));
    assert_eq!(active.time, Some(time(10, 0)));
    assert!(doc.headlines[0].deadline.is_none());

    let inactive = doc.headlines[1].scheduled.as_ref().expect("scheduled set");
    assert!(!inactive.active, "[…] is inactive");
    assert_eq!(inactive.date, date(2026, 6, 11));
    assert_eq!(inactive.time, None);
    // Spans index the analyzed source: the raw text is recoverable.
    assert_eq!(&src[active.span.clone()], "<2026-06-10 Wed 10:00>");
    assert_eq!(&src[inactive.span.clone()], "[2026-06-11 Thu]");
}

#[test]
fn semantic_deadline_timestamp() {
    let src = "* Active\nDEADLINE: <2026-06-12 Fri 09:30>\n\
               * Inactive\nDEADLINE: [2026-06-13 Sat]\n";
    let doc = analyze(&tree(src), src);
    let active = doc.headlines[0].deadline.as_ref().expect("deadline set");
    assert!(active.active);
    assert_eq!(active.date, date(2026, 6, 12));
    assert_eq!(active.time, Some(time(9, 30)));
    assert!(doc.headlines[0].scheduled.is_none());

    let inactive = doc.headlines[1].deadline.as_ref().expect("deadline set");
    assert!(!inactive.active);
    assert_eq!(inactive.date, date(2026, 6, 13));
    assert_eq!(inactive.time, None);
}

#[test]
fn semantic_clock_entries() {
    let src = "* Clocked\n:LOGBOOK:\n\
               CLOCK: [2026-06-09 Tue 10:00]--[2026-06-09 Tue 11:30] =>  1:30\n\
               CLOCK: [2026-06-10 Wed 08:00]\n\
               :END:\n";
    let doc = analyze(&tree(src), src);
    let h = &doc.headlines[0];
    assert_eq!(h.clocks.len(), 2, "both CLOCK lines surface from :LOGBOOK:");

    let closed = &h.clocks[0];
    assert_eq!(closed.start.date, date(2026, 6, 9));
    assert_eq!(closed.start.time, Some(time(10, 0)));
    assert!(!closed.start.active, "CLOCK timestamps are inactive");
    let end = closed.end.as_ref().expect("closed entry has an end");
    assert_eq!(end.date, date(2026, 6, 9));
    assert_eq!(end.time, Some(time(11, 30)));
    assert_eq!(closed.duration, Duration::try_minutes(90));

    let open = &h.clocks[1];
    assert_eq!(open.start.date, date(2026, 6, 10));
    assert_eq!(open.start.time, Some(time(8, 0)));
    assert!(open.end.is_none(), "open entry has no end");
    assert!(open.duration.is_none(), "open entry has no duration");
}

#[test]
fn semantic_recurring_timestamps() {
    let src = "* W\nSCHEDULED: <2026-06-10 Wed +1w>\n\
               * D\nSCHEDULED: <2026-06-10 Wed +1d>\n\
               * M\nSCHEDULED: <2026-06-10 Wed +1m>\n\
               * Y\nSCHEDULED: <2026-06-10 Wed +1y>\n\
               * CU\nSCHEDULED: <2026-06-10 Wed ++1m>\n\
               * RS\nSCHEDULED: <2026-06-10 Wed .+1y>\n";
    let doc = analyze(&tree(src), src);
    let expected = [
        (RepeaterKind::Cumulate, 1u32, TimeUnit::Week),
        (RepeaterKind::Cumulate, 1, TimeUnit::Day),
        (RepeaterKind::Cumulate, 1, TimeUnit::Month),
        (RepeaterKind::Cumulate, 1, TimeUnit::Year),
        (RepeaterKind::CatchUp, 1, TimeUnit::Month),
        (RepeaterKind::Restart, 1, TimeUnit::Year),
    ];
    assert_eq!(doc.headlines.len(), expected.len());
    for (h, (kind, value, unit)) in doc.headlines.iter().zip(expected) {
        let ts = h.scheduled.as_ref().expect("scheduled set");
        let rep = ts.repeater.as_ref().expect("repeater parsed");
        assert_eq!(rep.kind, kind, "headline {:?}", h.title);
        assert_eq!(rep.value, value);
        assert_eq!(rep.unit, unit);
    }
}

fn property<'a>(props: &'a [(String, String)], key: &str) -> Option<&'a str> {
    props.iter().find(|(k, _)| k == key).map(|(_, v)| v.as_str())
}

#[test]
fn semantic_drawer_types() {
    let src = "* H\n:PROPERTIES:\n:ID: abc-123\n:CUSTOM_ID: xyz\n:END:\n\
               :LOGBOOK:\nCLOCK: [2026-06-10 Wed 08:00]\n:END:\n\
               :MYDRAWER:\nfree text\n:END:\n";
    let doc = analyze(&tree(src), src);
    let h = &doc.headlines[0];
    assert_eq!(h.properties.len(), 2);
    assert_eq!(property(&h.properties, "ID"), Some("abc-123"));
    assert_eq!(property(&h.properties, "CUSTOM_ID"), Some("xyz"));

    let kinds: Vec<&DrawerKind> = h.drawers.iter().map(|d| &d.kind).collect();
    assert!(kinds.contains(&&DrawerKind::Properties), "{kinds:?}");
    assert!(kinds.contains(&&DrawerKind::Logbook), "{kinds:?}");
    assert!(kinds.contains(&&DrawerKind::Custom("MYDRAWER".to_string())), "{kinds:?}");
    let custom = h
        .drawers
        .iter()
        .find(|d| matches!(d.kind, DrawerKind::Custom(_)))
        .expect("custom drawer present");
    assert!(custom.contents.contains("free text"));
    assert_eq!(&src[custom.contents_span.clone()], custom.contents);
}

#[test]
fn semantic_lenient_unparseable_date() {
    let src = "* H\nSCHEDULED: <2026-13-40 Xxx>\n";
    let doc = analyze(&tree(src), src);
    let h = &doc.headlines[0];
    assert!(h.scheduled.is_none(), "month 13 is skipped, not crashed on");
    assert_eq!(h.title, "H", "headline structure intact");
}

#[test]
fn semantic_duplicate_property_keys_last_wins() {
    let src = "* H\n:PROPERTIES:\n:KEY: first\n:KEY: second\n:END:\n";
    let doc = analyze(&tree(src), src);
    let h = &doc.headlines[0];
    assert_eq!(h.properties.len(), 1);
    assert_eq!(property(&h.properties, "KEY"), Some("second"));
}

#[test]
fn semantic_closed_timestamp() {
    let src = "* DONE Shipped\nCLOSED: [2026-06-09 Tue 18:15] DEADLINE: <2026-06-12 Fri>\n";
    let doc = analyze(&tree(src), src);
    let h = &doc.headlines[0];
    let closed = h.closed.as_ref().expect("closed set");
    assert!(!closed.active, "org writes CLOSED stamps inactive");
    assert_eq!(closed.date, date(2026, 6, 9));
    assert_eq!(closed.time, Some(time(18, 15)));
    assert!(h.deadline.is_some(), "same plan line still routes DEADLINE");
    assert!(h.scheduled.is_none());
}

#[test]
fn semantic_timestamp_ranges() {
    let src = "* R\nSCHEDULED: <2026-06-10 Wed>--<2026-06-12 Fri>\n\
               * T\nSCHEDULED: <2026-06-10 Wed 10:00-11:00>\n";
    let doc = analyze(&tree(src), src);
    let r = doc.headlines[0].scheduled.as_ref().expect("date range set");
    assert_eq!(r.date, date(2026, 6, 10));
    assert_eq!(r.end_date, Some(date(2026, 6, 12)));
    let t = doc.headlines[1].scheduled.as_ref().expect("time range set");
    assert_eq!(t.time, Some(time(10, 0)));
    assert_eq!(t.end_time, Some(time(11, 0)));
    assert!(t.end_date.is_none());
}
