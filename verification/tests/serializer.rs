use orgsidian::semantic::analyze;
use orgsidian::semantic::tree::{FieldName, NodeKind, SyntaxNode};
use orgsidian::serializer::{serialize, serialize_document, tiles_source};

fn node(
    kind: NodeKind,
    field: Option<FieldName>,
    start: usize,
    end: usize,
    children: Vec<SyntaxNode>,
) -> SyntaxNode {
    SyntaxNode { kind, field, named: true, start, end, children }
}

/// Byte offsets of each line start, plus the end of the text.
fn line_starts(src: &str) -> Vec<usize> {
    let mut starts = vec![0];
    for (i, b) in src.bytes().enumerate() {
        if b == b'\n' && i + 1 < src.len() {
            starts.push(i + 1);
        }
    }
    starts
}

fn stars_at(src: &str, at: usize) -> usize {
    let rest = &src.as_bytes()[at..];
    let n = rest.iter().take_while(|b| **b == b'*').count();
    if n > 0 && rest.get(n) == Some(&b' ') {
        n
    } else {
        0
    }
}

fn line_end(src: &str, at: usize) -> usize {
    match src[at..].find('\n') {
        Some(i) => at + i,
        None => src.len(),
    }
}

/// The outline tree of a document made of headlines and plain body lines:
/// a section per headline, nested by star count, as the org grammar shapes it.
fn tree(src: &str) -> SyntaxNode {
    let heads: Vec<(usize, usize)> = line_starts(src)
        .into_iter()
        .filter(|&s| s < src.len())
        .map(|s| (s, stars_at(src, s)))
        .filter(|&(_, n)| n > 0)
        .collect();
    let mut children = Vec::new();
    let first = heads.first().map(|h| h.0).unwrap_or(src.len());
    if first > 0 {
        children.push(node(NodeKind::Other, Some(FieldName::Body), 0, first, Vec::new()));
    }
    let mut i = 0;
    while i < heads.len() {
        let (sec, next) = section(src, &heads, i);
        children.push(sec);
        i = next;
    }
    node(NodeKind::Document, None, 0, src.len(), children)
}

fn section(src: &str, heads: &[(usize, usize)], i: usize) -> (SyntaxNode, usize) {
    let (start, level) = heads[i];
    let mut j = i + 1;
    while j < heads.len() && heads[j].1 > level {
        j += 1;
    }
    let end = if j < heads.len() { heads[j].0 } else { src.len() };
    let le = line_end(src, start);
    let headline = node(
        NodeKind::Headline,
        Some(FieldName::Headline),
        start,
        le,
        vec![
            node(NodeKind::Stars, Some(FieldName::Stars), start, start + level, Vec::new()),
            node(NodeKind::Item, Some(FieldName::Item), start + level + 1, le, Vec::new()),
        ],
    );
    let mut children = vec![headline];
    let body_start = if le < src.len() { le + 1 } else { le };
    let first_child = if i + 1 < j { heads[i + 1].0 } else { end };
    if first_child > body_start {
        children.push(node(NodeKind::Other, Some(FieldName::Body), body_start, first_child, Vec::new()));
    }
    let mut k = i + 1;
    while k < j {
        let (sub, next) = section(src, heads, k);
        let mut sub = sub;
        sub.field = Some(FieldName::Subsection);
        children.push(sub);
        k = next;
    }
    (node(NodeKind::Section, Some(FieldName::Subsection), start, end, children), j)
}

// Region math: the own region stops at the first child — emission order
// is own raw, then children, recursively.
#[test]
fn emit_orders_own_region_before_children() {
    let src = "* A\na body\n** B\nb body\n*** C\nc leaf\n** D\n";
    let doc = analyze(&tree(src), src);
    let a = &doc.headlines[0];
    assert_eq!(a.raw, "* A\na body\n", "own region ends at first child");
    assert_eq!(a.children[0].raw, "** B\nb body\n");
    assert_eq!(a.children[0].children[0].raw, "*** C\nc leaf\n");
    assert_eq!(a.children[1].raw, "** D\n");
    assert_eq!(serialize(&doc.headlines), src);
}

// A childless headline's raw covers its whole section span.
#[test]
fn childless_raw_covers_whole_section() {
    let src = "* Solo\nbody\n\n\n";
    let doc = analyze(&tree(src), src);
    let h = &doc.headlines[0];
    assert!(h.children.is_empty());
    assert_eq!(h.raw, src, "trailing blank lines stay inside the section");
    assert_eq!(serialize_document(&doc), src);
}

// serialize_document = preamble + serialize(headlines).
#[test]
fn document_serialization_includes_preamble() {
    let src = "#+TITLE: t\n\nintro\n\n* One\nbody\n";
    let doc = analyze(&tree(src), src);
    let preamble = doc.preamble.as_ref().expect("preamble present");
    assert_eq!(
        serialize_document(&doc),
        format!("{}{}", preamble.text, serialize(&doc.headlines))
    );
    assert_eq!(serialize_document(&doc), src);
}

// Empty input → empty output (no preamble, no headlines, no panic).
#[test]
fn empty_document_serializes_to_empty() {
    let doc = analyze(&tree(""), "");
    assert_eq!(serialize_document(&doc), "");
    assert_eq!(serialize(&doc.headlines), "");
}

// Bytes the tree leaves outside every section are kept: text after the last
// section joins the last headline, so the document still round-trips.
#[test]
fn uncovered_tail_is_kept_by_the_last_headline() {
    let src = "* One\nbody\n";
    let mut root = tree(src);
    // Shrink the section so its last line falls outside it.
    root.children[0].end = 6;
    root.children[0].children.truncate(1);
    let doc = analyze(&root, src);
    assert_eq!(doc.headlines.len(), 1);
    assert_eq!(doc.headlines[0].raw, src);
    assert_eq!(serialize_document(&doc), src);
}

// A headline's level, title and children follow the tree.
#[test]
fn levels_titles_and_nesting_follow_the_outline() {
    let src = "* Top\n** Mid\n*** Low\n* Next\n";
    let doc = analyze(&tree(src), src);
    assert_eq!(doc.headlines.len(), 2);
    assert_eq!(doc.headlines[0].level, 1);
    assert_eq!(doc.headlines[0].title, "Top");
    assert_eq!(doc.headlines[0].children[0].level, 2);
    assert_eq!(doc.headlines[0].children[0].children[0].title, "Low");
    assert_eq!(doc.headlines[1].title, "Next");
    assert_eq!(serialize_document(&doc), src);
}

// The tiling check accepts the grammar-shaped outline and, for it, the
// round trip holds; a tree that overlaps or splits a character is refused.
#[test]
fn tiling_check_accepts_outlines_and_refuses_broken_trees() {
    let src = "#+TITLE: t\n\nintro\n\n* One\nbody\n** Two\nmore\n* Three\n";
    let root = tree(src);
    assert!(root.is_well_formed(src.len()));
    assert!(tiles_source(&root, src));
    assert_eq!(serialize_document(&analyze(&root, src)), src);

    let mut overlapping = tree(src);
    let n = overlapping.children.len();
    overlapping.children[n - 1].start -= 1;
    assert!(overlapping.is_well_formed(src.len()));
    assert!(!tiles_source(&overlapping, src));

    let multi = "* é\n";
    let mut split = tree(multi);
    split.children[0].children[0].end = 3;
    assert!(!tiles_source(&split, multi));

    let mut outside = tree(src);
    outside.end = src.len() + 1;
    assert!(!outside.is_well_formed(src.len()));
    assert!(!tiles_source(&outside, src));
}

// A built headline spans its section, its children follow on inside it,
// and its links sit in its own region.
#[test]
fn built_sections_keep_their_shape() {
    let src = "* A see https://a.dev\nbody [[x]]\n** B\n** C [[y]]\n";
    let doc = analyze(&tree(src), src);
    let a = &doc.headlines[0];
    assert_eq!(a.span, 0..src.len());
    assert_eq!(a.children.len(), 2);
    assert!(a.children[0].span.end <= a.children[1].span.start);
    for c in &a.children {
        assert!(a.span.start <= c.span.start && c.span.end <= a.span.end);
    }
    let own_end = a.children[0].span.start;
    assert_eq!(a.links.len(), 2);
    for l in &a.links {
        assert!(a.span.start <= l.span.start && l.span.end <= own_end);
    }
    assert_eq!(a.children[1].links.len(), 1);
}
