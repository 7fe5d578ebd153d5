//! `Headline`, the central semantic struct, and the section walker.
//!
//! A grammar `section` node maps to one [`Headline`]: stars give the level,
//! the first `item` word is the TODO state when the configuration knows it,
//! the rest of the item is the title, `tag_list` gives the tags, `plan`
//! entries give scheduled/deadline/closed, the property drawer gives the
//! properties, body drawers give drawers (and CLOCK entries from
//! `:LOGBOOK:`), and nested sections give the children. Malformed pieces
//! degrade to raw text or `None`; nothing panics.
use core::ops::Range;
use vstd::prelude::*;
use vstd::string::{StringExecFns, StringSliceAdditionalSpecFns};

use super::drawer::{
    clock_parses_from, entry_from, parse_clock_lines, ClockEntry, ClockParse, Drawer,
    DrawerKind,
};
use super::link::{links_scanned, scan_links_bytes, Link};
use super::timestamp::{parse_at_spec, StampFields, Timestamp};
use super::todo::{classify_in, TodoConfig, TodoState};
use super::tree::{
    field_child, first_named, named_of_kind, with_field, FieldName, NodeKind, SyntaxNode,
};
use crate::text::{skip_ws, substring, trim_end_at, decoded};

verus! {

/// One headline tag (`:work:` → name `work`).
#[derive(Debug, PartialEq, Eq)]
pub struct Tag {
    /// Tag text without the surrounding colons.
    pub name: String,
    /// Byte range of the tag node in the analyzed source.
    pub span: Range<usize>,
}

/// One org headline with its section content and nested children.
#[derive(Debug)]
pub struct Headline {
    /// Heading depth = number of leading stars (capped at 255).
    pub level: u8,
    /// The recognized TODO keyword, when the first title word is a
    /// configured keyword (case-sensitive).
    pub todo_state: Option<TodoState>,
    /// Headline text minus stars, TODO keyword and tag list, trimmed.
    pub title: String,
    /// Trailing tags, in order, names without colons.
    pub tags: Vec<Tag>,
    /// `SCHEDULED:` timestamp from the planning line, when present/parseable.
    pub scheduled: Option<Timestamp>,
    /// `DEADLINE:` timestamp from the planning line, when present/parseable.
    pub deadline: Option<Timestamp>,
    /// `CLOSED:` timestamp from the planning line, when present/parseable.
    pub closed: Option<Timestamp>,
    /// `:PROPERTIES:` key/value pairs: one pair per key, a repeated key's
    /// last value winning; order unspecified.
    pub properties: Vec<(String, String)>,
    /// All drawers of this section (the property drawer first), classified.
    pub drawers: Vec<Drawer>,
    /// `CLOCK:` entries parsed from this section's `:LOGBOOK:` drawers.
    pub clocks: Vec<ClockEntry>,
    /// Links in this headline's own region (headline line and body, up to
    /// the first child section).
    pub links: Vec<Link>,
    /// Byte range of the whole section (through its last child).
    pub span: Range<usize>,
    /// Nested subsections, in document order.
    pub children: Vec<Headline>,
    /// The section's own-region text (headline line and body up to the first
    /// child section), exactly as written; the preamble and every `raw`, in
    /// document order, tile the analyzed source.
    pub raw: String,
}

// ---------------------------------------------------------------------------
// Field specifications.
// ---------------------------------------------------------------------------

/// The source bytes a node covers.
pub open spec fn node_bytes(src: Seq<u8>, n: SyntaxNode) -> Seq<u8> {
    src.subrange(n.start as int, n.end as int)
}

/// The text a node covers.
pub open spec fn node_text(src: Seq<u8>, n: SyntaxNode) -> Seq<char> {
    decoded(node_bytes(src, n))
}

/// The text of `src[a..b)` trimmed of surrounding whitespace (empty when
/// the range is reversed).
pub open spec fn trimmed_text(src: Seq<u8>, a: int, b: int) -> Seq<char> {
    if a <= b {
        let x = skip_ws(src, a, b);
        decoded(src.subrange(x, trim_end_at(src, x, b)))
    } else {
        seq![]
    }
}

/// Heading depth: the length of the `stars` node, capped at 255.
pub open spec fn level_spec(hn: SyntaxNode) -> int {
    match field_child(hn, FieldName::Stars) {
        Some(st) => if st.end < st.start {
            0
        } else if st.end - st.start > 255 {
            255
        } else {
            st.end - st.start
        },
        None => 0,
    }
}

/// The TODO state (keyword text, done-class, start, end) and the title of
/// the headline node `hn`.
pub open spec fn todo_title_spec(
    src: Seq<u8>,
    hn: SyntaxNode,
    cfg: Seq<(Seq<Seq<char>>, Seq<Seq<char>>)>,
) -> (Option<(Seq<char>, bool, int, int)>, Seq<char>) {
    match field_child(hn, FieldName::Item) {
        None => (None, seq![]),
        Some(item) => {
            let (todo, ts) = match first_named(item.children@) {
                Some(first) => match classify_in(cfg, node_text(src, first)) {
                    Some(done) => (
                        Some((node_text(src, first), done, first.start as int, first.end as int)),
                        first.end as int,
                    ),
                    None => (None, item.start as int),
                },
                None => (None, item.start as int),
            };
            (todo, trimmed_text(src, ts, item.end as int))
        },
    }
}

/// First offset in `[a, b)` that is not `c`, or `b`.
pub open spec fn skip_byte(t: Seq<u8>, a: int, b: int, c: u8) -> int
    decreases b - a,
{
    if a < b && t[a] == c {
        skip_byte(t, a + 1, b, c)
    } else {
        a
    }
}

/// End of `t[a..b)` with trailing `c` bytes removed (not below `a`).
pub open spec fn back_skip_byte(t: Seq<u8>, a: int, b: int, c: u8) -> int
    decreases b - a,
{
    if a < b && t[b - 1] == c {
        back_skip_byte(t, a, b - 1, c)
    } else {
        b
    }
}

/// The text of `src[a..b)` with surrounding colons removed.
pub open spec fn colon_trimmed(src: Seq<u8>, a: int, b: int) -> Seq<char> {
    let lo = skip_byte(src, a, b, 58);
    decoded(src.subrange(lo, back_skip_byte(src, lo, b, 58)))
}

/// The tag nodes of the headline node `hn`.
pub open spec fn tag_nodes(hn: SyntaxNode) -> Seq<SyntaxNode> {
    match field_child(hn, FieldName::Tags) {
        Some(tl) => with_field(tl.children@, FieldName::Tag),
        None => seq![],
    }
}

/// `t` is the tag the node `n` gives.
pub open spec fn tag_ok(t: Tag, n: SyntaxNode, src: Seq<u8>) -> bool {
    &&& t.name@ == colon_trimmed(src, n.start as int, n.end as int)
    &&& t.span.start == n.start
    &&& t.span.end == n.end
}

/// The timestamp a planning entry node gives when its name is `word`.
pub open spec fn entry_match(src: Seq<u8>, e: SyntaxNode, word: Seq<u8>) -> Option<(StampFields, int, int)> {
    match (field_child(e, FieldName::Name), field_child(e, FieldName::Timestamp)) {
        (Some(nm), Some(tn)) => if node_bytes(src, nm) == word {
            match parse_at_spec(node_bytes(src, tn), 0) {
                Some((f, c)) => Some((f, tn.start as int, c)),
                None => None,
            }
        } else {
            None
        },
        _ => None,
    }
}

/// The first entry of `es` named `word` whose timestamp parses.
pub open spec fn first_entry_match(src: Seq<u8>, es: Seq<SyntaxNode>, word: Seq<u8>) -> Option<(StampFields, int, int)>
    decreases es.len(),
{
    if es.len() == 0 {
        None
    } else {
        let prev = first_entry_match(src, es.drop_last(), word);
        if prev is Some {
            prev
        } else {
            entry_match(src, es.last(), word)
        }
    }
}

/// The planning entries of the section `sec`.
pub open spec fn plan_entries(sec: SyntaxNode) -> Seq<SyntaxNode> {
    match field_child(sec, FieldName::Plan) {
        Some(plan) => named_of_kind(plan.children@, NodeKind::Entry),
        None => seq![],
    }
}

/// `ts` is the timestamp `m` describes (fields, start, length).
pub open spec fn planned_ok(ts: Option<Timestamp>, m: Option<(StampFields, int, int)>, src: Seq<u8>) -> bool {
    match m {
        None => ts is None,
        Some((f, s, c)) => ts matches Some(x) && x.fields() == f && x.raw@ == decoded(
            src.subrange(s, s + c),
        ) && x.span.start == s && x.span.end == s + c,
    }
}

/// `SCHEDULED` in ASCII.
pub open spec fn w_scheduled() -> Seq<u8> {
    seq![83u8, 67, 72, 69, 68, 85, 76, 69, 68]
}

/// `DEADLINE` in ASCII.
pub open spec fn w_deadline() -> Seq<u8> {
    seq![68u8, 69, 65, 68, 76, 73, 78, 69]
}

/// `CLOSED` in ASCII.
pub open spec fn w_closed() -> Seq<u8> {
    seq![67u8, 76, 79, 83, 69, 68]
}

// ---------------------------------------------------------------------------
// Field extraction.
// ---------------------------------------------------------------------------

/// The text a node covers, as an owned string.
fn text_of(src: &[u8], n: &SyntaxNode) -> (r: String)
    requires
        n.start <= n.end <= src@.len(),
    ensures
        r@ == node_text(src@, *n),
{
    substring(src, n.start, n.end)
}

/// The trimmed text of `src[a..b)`.
fn trimmed(src: &[u8], a: usize, b: usize) -> (r: String)
    requires
        b <= src@.len(),
    ensures
        r@ == trimmed_text(src@, a as int, b as int),
{
    if a > b {
        return String::new();
    }
    let x = crate::text::skip_ws_at(src, a, b);
    proof {
        crate::text::lemma_skip_ws_bounds(src@, a as int, b as int);
    }
    let y = crate::text::trim_end_pos(src, x, b);
    proof {
        crate::text::lemma_trim_end_bounds(src@, x as int, b as int);
    }
    substring(src, x, y)
}

/// [`trimmed_text`] as an owned string.
pub(crate) fn trimmed_pub(src: &[u8], a: usize, b: usize) -> (r: String)
    requires
        b <= src@.len(),
    ensures
        r@ == trimmed_text(src@, a as int, b as int),
{
    trimmed(src, a, b)
}

fn level_of(hn: &SyntaxNode) -> (r: u8)
    ensures
        r as int == level_spec(*hn),
{
    match hn.child_by_field(FieldName::Stars) {
        Some(st) => {
            if st.end < st.start {
                0
            } else if st.end - st.start > 255 {
                255
            } else {
                (st.end - st.start) as u8
            }
        },
        None => 0,
    }
}

proof fn lemma_child_wf(n: SyntaxNode, c: SyntaxNode, len: int)
    requires
        n.wf(len),
        exists|i: int| 0 <= i < n.children@.len() && n.children@[i] == c,
    ensures
        c.wf(len),
        n.start <= c.start,
        c.end <= n.end,
{
    let i = choose|i: int| 0 <= i < n.children@.len() && n.children@[i] == c;
    assert(n.children@[i] == c);
}

fn todo_and_title(src: &[u8], hn: &SyntaxNode, config: &TodoConfig) -> (r: (Option<TodoState>, String))
    requires
        hn.wf(src@.len() as int),
    ensures
        match todo_title_spec(src@, *hn, config@).0 {
            None => r.0 is None,
            Some((k, d, a, b)) => r.0 matches Some(ts) && ts.keyword@ == k && ts.done == d
                && ts.span.start == a && ts.span.end == b,
        },
        r.1@ == todo_title_spec(src@, *hn, config@).1,
{
    match hn.child_by_field(FieldName::Item) {
        None => (None, String::new()),
        Some(item) => {
            proof {
                lemma_child_wf(*hn, *item, src@.len() as int);
            }
            let mut title_start = item.start;
            let mut todo: Option<TodoState> = None;
            match item.first_named_child() {
                Some(first) => {
                    proof {
                        lemma_child_wf(*item, *first, src@.len() as int);
                    }
                    let word = text_of(src, first);
                    match config.classify(word.as_str()) {
                        Some(done) => {
                            todo = Some(TodoState { keyword: word, done, span: first.start..first.end });
                            title_start = first.end;
                        },
                        None => {},
                    }
                },
                None => {},
            }
            let title = trimmed(src, title_start, item.end);
            (todo, title)
        },
    }
}

fn skip_byte_at(t: &[u8], a: usize, b: usize, c: u8) -> (r: usize)
    requires
        a <= b <= t@.len(),
    ensures
        r == skip_byte(t@, a as int, b as int, c),
        a <= r <= b,
{
    let mut k = a;
    while k < b && t[k] == c
        invariant
            a <= k <= b <= t@.len(),
            skip_byte(t@, a as int, b as int, c) == skip_byte(t@, k as int, b as int, c),
        decreases b - k,
    {
        k = k + 1;
    }
    k
}

fn back_skip_byte_at(t: &[u8], a: usize, b: usize, c: u8) -> (r: usize)
    requires
        a <= b <= t@.len(),
    ensures
        r == back_skip_byte(t@, a as int, b as int, c),
        a <= r <= b,
{
    let mut k = b;
    while k > a && t[k - 1] == c
        invariant
            a <= k <= b <= t@.len(),
            back_skip_byte(t@, a as int, b as int, c) == back_skip_byte(t@, a as int, k as int, c),
        decreases k - a,
    {
        k = k - 1;
    }
    k
}

fn tags_of(src: &[u8], hn: &SyntaxNode) -> (r: Vec<Tag>)
    requires
        hn.wf(src@.len() as int),
    ensures
        r@.len() == tag_nodes(*hn).len(),
        forall|j: int| 0 <= j < r@.len() ==> tag_ok(#[trigger] r@[j], tag_nodes(*hn)[j], src@),
{
    let mut out: Vec<Tag> = Vec::new();
    match hn.child_by_field(FieldName::Tags) {
        None => {
            return out;
        },
        Some(tl) => {
            proof {
                lemma_child_wf(*hn, *tl, src@.len() as int);
            }
            let ghost pred = |c: SyntaxNode| c.field == Some(FieldName::Tag);
            let mut i: usize = 0;
            proof {
                assert(tl.children@.take(0).filter(pred) =~= seq![]);
            }
            while i < tl.children.len()
                invariant
                    i <= tl.children@.len(),
                    tl.wf(src@.len() as int),
                    pred == (|c: SyntaxNode| c.field == Some(FieldName::Tag)),
                    out@.len() == tl.children@.take(i as int).filter(pred).len(),
                    forall|j: int|
                        0 <= j < out@.len() ==> tag_ok(
                            #[trigger] out@[j],
                            tl.children@.take(i as int).filter(pred)[j],
                            src@,
                        ),
                decreases tl.children@.len() - i,
            {
                let c = &tl.children[i];
                proof {
                    let cs = tl.children@;
                    assert(cs.take(i as int).push(cs[i as int]) =~= cs.take(i + 1));
                    cs.take(i as int).lemma_filter_push(cs[i as int], pred);
                    assert(c.wf(src@.len() as int));
                }
                if c.field == Some(FieldName::Tag) {
                    let lo = skip_byte_at(src, c.start, c.end, 58);
                    let hi = back_skip_byte_at(src, lo, c.end, 58);
                    let name = substring(src, lo, hi);
                    out.push(Tag { name, span: c.start..c.end });
                }
                i = i + 1;
            }
            proof {
                assert(tl.children@.take(i as int) =~= tl.children@);
            }
            out
        },
    }
}

fn bytes_vec_eq(t: &[u8], a: usize, b: usize, w: &[u8]) -> (r: bool)
    requires
        a <= b <= t@.len(),
    ensures
        r == (t@.subrange(a as int, b as int) == w@),
{
    crate::text::bytes_eq_range(t, a, b, w)
}

/// The timestamp of a planning entry node, with the entry's name range.
fn entry_stamp(src: &[u8], e: &SyntaxNode) -> (r: Option<(Timestamp, usize, usize)>)
    requires
        e.wf(src@.len() as int),
    ensures
        forall|w: Seq<u8>|
            #![trigger entry_match(src@, *e, w)]
            match entry_match(src@, *e, w) {
                None => match r {
                    None => true,
                    Some((x, a, b)) => src@.subrange(a as int, b as int) != w,
                },
                Some((f, s, c)) => match r {
                    None => false,
                    Some((x, a, b)) => src@.subrange(a as int, b as int) == w && planned_ok(
                        Some(x),
                        Some((f, s, c)),
                        src@,
                    ),
                },
            },
        r matches Some((x, a, b)) ==> a <= b <= src@.len(),
{
    let nm = match e.child_by_field(FieldName::Name) {
        Some(n) => n,
        None => {
            return None;
        },
    };
    let tn = match e.child_by_field(FieldName::Timestamp) {
        Some(n) => n,
        None => {
            return None;
        },
    };
    proof {
        lemma_child_wf(*e, *nm, src@.len() as int);
        lemma_child_wf(*e, *tn, src@.len() as int);
    }
    let sub = vstd::slice::slice_subrange(src, tn.start, tn.end);
    proof {
        super::timestamp::lemma_parse_at_len(sub@, 0);
    }
    match super::timestamp::scan_at(sub, 0) {
        Some((f, c)) => {
            let x = super::timestamp::stamp_from(sub, f, c, tn.start);
            proof {
                assert(sub@.subrange(0, c as int) =~= src@.subrange(
                    tn.start as int,
                    tn.start + c,
                ));
            }
            Some((x, nm.start, nm.end))
        },
        None => None,
    }
}

fn scheduled_bytes() -> (r: Vec<u8>)
    ensures
        r@ == w_scheduled(),
{
    let r = vec![83u8, 67, 72, 69, 68, 85, 76, 69, 68];
    assert(r@ =~= w_scheduled());
    r
}

fn deadline_bytes() -> (r: Vec<u8>)
    ensures
        r@ == w_deadline(),
{
    let r = vec![68u8, 69, 65, 68, 76, 73, 78, 69];
    assert(r@ =~= w_deadline());
    r
}

fn closed_bytes() -> (r: Vec<u8>)
    ensures
        r@ == w_closed(),
{
    let r = vec![67u8, 76, 79, 83, 69, 68];
    assert(r@ =~= w_closed());
    r
}

/// The entries of `es` that are named nodes of kind `Entry`.
pub open spec fn is_entry() -> spec_fn(SyntaxNode) -> bool {
    |c: SyntaxNode| c.named && c.kind == NodeKind::Entry
}

/// Scheduled, deadline and closed stamps of the section `sec`.
fn planning_of(src: &[u8], sec: &SyntaxNode) -> (r: (Option<Timestamp>, Option<Timestamp>, Option<Timestamp>))
    requires
        sec.wf(src@.len() as int),
    ensures
        planned_ok(r.0, first_entry_match(src@, plan_entries(*sec), w_scheduled()), src@),
        planned_ok(r.1, first_entry_match(src@, plan_entries(*sec), w_deadline()), src@),
        planned_ok(r.2, first_entry_match(src@, plan_entries(*sec), w_closed()), src@),
{
    let mut sch: Option<Timestamp> = None;
    let mut dl: Option<Timestamp> = None;
    let mut cl: Option<Timestamp> = None;
    let ws = scheduled_bytes();
    let wd = deadline_bytes();
    let wc = closed_bytes();
    match sec.child_by_field(FieldName::Plan) {
        None => {
            return (sch, dl, cl);
        },
        Some(plan) => {
            proof {
                lemma_child_wf(*sec, *plan, src@.len() as int);
                assert(named_of_kind(plan.children@, NodeKind::Entry) == plan.children@.filter(is_entry()));
            }
            let mut i: usize = 0;
            proof {
                assert(plan.children@.take(0).filter(is_entry()) =~= seq![]);
            }
            while i < plan.children.len()
                invariant
                    i <= plan.children@.len(),
                    plan.wf(src@.len() as int),
                    ws@ == w_scheduled(),
                    wd@ == w_deadline(),
                    wc@ == w_closed(),
                    planned_ok(sch, first_entry_match(src@, plan.children@.take(i as int).filter(is_entry()), w_scheduled()), src@),
                    planned_ok(dl, first_entry_match(src@, plan.children@.take(i as int).filter(is_entry()), w_deadline()), src@),
                    planned_ok(cl, first_entry_match(src@, plan.children@.take(i as int).filter(is_entry()), w_closed()), src@),
                decreases plan.children@.len() - i,
            {
                let e = &plan.children[i];
                let ghost prev = plan.children@.take(i as int).filter(is_entry());
                proof {
                    let cs = plan.children@;
                    assert(cs.take(i as int).push(cs[i as int]) =~= cs.take(i + 1));
                    cs.take(i as int).lemma_filter_push(cs[i as int], is_entry());
                    assert(e.wf(src@.len() as int));
                }
                if e.named && e.kind == NodeKind::Entry {
                    proof {
                        let now = plan.children@.take(i + 1).filter(is_entry());
                        assert(now == prev.push(*e));
                        assert(now.drop_last() =~= prev);
                    }
                    match entry_stamp(src, e) {
                        Some((x, a, b)) => {
                            if sch.is_none() && bytes_vec_eq(src, a, b, ws.as_slice()) {
                                sch = Some(x.clone());
                            }
                            if dl.is_none() && bytes_vec_eq(src, a, b, wd.as_slice()) {
                                dl = Some(x.clone());
                            }
                            if cl.is_none() && bytes_vec_eq(src, a, b, wc.as_slice()) {
                                cl = Some(x);
                            }
                        },
                        None => {},
                    }
                }
                i = i + 1;
            }
            proof {
                assert(plan.children@.take(i as int) =~= plan.children@);
            }
            (sch, dl, cl)
        },
    }
}

// ---------------------------------------------------------------------------
// Properties and drawers.
// ---------------------------------------------------------------------------

/// Named `property` nodes.
pub open spec fn is_property() -> spec_fn(SyntaxNode) -> bool {
    |c: SyntaxNode| c.named && c.kind == NodeKind::Property
}

/// Named `drawer` nodes.
pub open spec fn is_drawer() -> spec_fn(SyntaxNode) -> bool {
    |c: SyntaxNode| c.named && c.kind == NodeKind::Drawer
}

/// A property line: its name, trimmed value, start and end; `None` without
/// a (non-empty) name.
pub open spec fn prop_entry(src: Seq<u8>, p: SyntaxNode) -> Option<(Seq<char>, Seq<char>, int, int)> {
    match field_child(p, FieldName::Name) {
        None => None,
        Some(nm) => if node_text(src, nm).len() == 0 {
            None
        } else {
            let value = match field_child(p, FieldName::Value) {
                Some(v) => trimmed_text(src, v.start as int, v.end as int),
                None => seq![],
            };
            Some((node_text(src, nm), value, p.start as int, p.end as int))
        },
    }
}

/// The accepted property lines of `ps`, in order.
pub open spec fn prop_entries(src: Seq<u8>, ps: Seq<SyntaxNode>) -> Seq<(Seq<char>, Seq<char>, int, int)>
    decreases ps.len(),
{
    if ps.len() == 0 {
        seq![]
    } else {
        prop_entries(src, ps.drop_last()) + match prop_entry(src, ps.last()) {
            Some(x) => seq![x],
            None => seq![],
        }
    }
}

/// Key/value map of property lines, a later line overriding an earlier one.
pub open spec fn pairs_map(es: Seq<(Seq<char>, Seq<char>, int, int)>) -> Map<Seq<char>, Seq<char>>
    decreases es.len(),
{
    if es.len() == 0 {
        Map::empty()
    } else {
        pairs_map(es.drop_last()).insert(es.last().0, es.last().1)
    }
}

/// `v` holds one pair per key of `m`, with `m`'s value.
pub open spec fn props_match(v: Seq<(String, String)>, m: Map<Seq<char>, Seq<char>>) -> bool {
    &&& forall|i: int, j: int| 0 <= i < j < v.len() ==> (#[trigger] v[i]).0@ != (#[trigger] v[j]).0@
    &&& forall|i: int|
        0 <= i < v.len() ==> m.dom().contains((#[trigger] v[i]).0@) && m[v[i].0@] == v[i].1@
    &&& forall|k: Seq<char>| #[trigger] m.dom().contains(k) ==> exists|i: int| 0 <= i < v.len() && v[i].0@ == k
}

/// The property lines of the section's property drawer.
pub open spec fn section_props(src: Seq<u8>, sec: SyntaxNode) -> Seq<(Seq<char>, Seq<char>, int, int)> {
    match field_child(sec, FieldName::PropertyDrawer) {
        Some(pd) => prop_entries(src, pd.children@.filter(is_property())),
        None => seq![],
    }
}

/// `PROPERTIES` as text.
pub open spec fn properties_name() -> Seq<char> {
    seq!['P', 'R', 'O', 'P', 'E', 'R', 'T', 'I', 'E', 'S']
}

/// `d` is the drawer record of the property drawer `pd`: contents from the
/// first accepted property line through the last (an empty range at the
/// drawer's end when there is none).
pub open spec fn prop_drawer_ok(d: Drawer, pd: SyntaxNode, src: Seq<u8>) -> bool {
    let es = prop_entries(src, pd.children@.filter(is_property()));
    let cs: int = if es.len() > 0 {
        es[0].2
    } else {
        pd.end as int
    };
    let ce: int = if es.len() > 0 {
        es.last().3
    } else {
        pd.end as int
    };
    &&& d.kind == DrawerKind::Properties
    &&& d.name@ == properties_name()
    &&& d.span.start == pd.start && d.span.end == pd.end
    &&& d.contents_span.start == cs && d.contents_span.end == ce
    &&& d.contents@ == if cs <= ce {
        decoded(src.subrange(cs, ce))
    } else {
        seq![]
    }
}

/// The drawer nodes in the section's body.
pub open spec fn body_drawers(sec: SyntaxNode) -> Seq<SyntaxNode> {
    match field_child(sec, FieldName::Body) {
        Some(b) => b.children@.filter(is_drawer()),
        None => seq![],
    }
}

/// A drawer's name text (empty without a name node).
pub open spec fn drawer_name(src: Seq<u8>, n: SyntaxNode) -> Seq<char> {
    match field_child(n, FieldName::Name) {
        Some(nm) => node_text(src, nm),
        None => seq![],
    }
}

/// A drawer's contents range (an empty range at its end without contents).
pub open spec fn contents_range(n: SyntaxNode) -> (int, int) {
    match field_child(n, FieldName::Contents) {
        Some(c) => (c.start as int, c.end as int),
        None => (n.end as int, n.end as int),
    }
}

/// `logbook` in ASCII lowercase.
pub open spec fn logbook_word() -> Seq<u8> {
    seq![76u8, 79, 71, 66, 79, 79, 75]
}

/// The drawer is named `LOGBOOK` in any ASCII case.
pub open spec fn is_logbook(src: Seq<u8>, n: SyntaxNode) -> bool {
    match field_child(n, FieldName::Name) {
        Some(nm) => crate::text::eq_ignore_case(node_bytes(src, nm), logbook_word()),
        None => false,
    }
}

/// `d` is the drawer record of the body drawer node `n`.
pub open spec fn body_drawer_ok(d: Drawer, n: SyntaxNode, src: Seq<u8>) -> bool {
    let (cs, ce) = contents_range(n);
    &&& d.name@ == drawer_name(src, n)
    &&& if is_logbook(src, n) {
        d.kind == DrawerKind::Logbook
    } else {
        d.kind matches DrawerKind::Custom(x) && x@ == drawer_name(src, n)
    }
    &&& d.contents@ == decoded(src.subrange(cs, ce))
    &&& d.contents_span.start == cs && d.contents_span.end == ce
    &&& d.span.start == n.start && d.span.end == n.end
}

/// The CLOCK lines of `src[cs..ce)`, with absolute line ranges.
pub open spec fn clock_items(src: Seq<u8>, cs: int, ce: int) -> Seq<(ClockParse, int, int)> {
    clock_parses_from(src.subrange(cs, ce), 0).map_values(
        |x: (ClockParse, int, int)| (x.0, cs + x.1, cs + x.2),
    )
}

/// The CLOCK lines of every `:LOGBOOK:` drawer among `ds`, in order.
pub open spec fn drawers_clocks(src: Seq<u8>, ds: Seq<SyntaxNode>) -> Seq<(ClockParse, int, int)>
    decreases ds.len(),
{
    if ds.len() == 0 {
        seq![]
    } else {
        drawers_clocks(src, ds.drop_last()) + if is_logbook(src, ds.last()) {
            clock_items(src, contents_range(ds.last()).0, contents_range(ds.last()).1)
        } else {
            seq![]
        }
    }
}

/// `cl` holds exactly the entries `items` describe.
pub open spec fn clocks_ok(cl: Seq<ClockEntry>, items: Seq<(ClockParse, int, int)>, src: Seq<u8>) -> bool {
    &&& cl.len() == items.len()
    &&& forall|i: int|
        0 <= i < cl.len() ==> entry_from(
            #[trigger] cl[i],
            items[i].0,
            src.subrange(items[i].1, items[i].2),
            items[i].1,
        )
}

/// Add `(name, value)` to `props`, replacing the value of an equal key.
fn insert_prop(props: &mut Vec<(String, String)>, name: String, value: String)
    ensures
        forall|m: Map<Seq<char>, Seq<char>>|
            #![trigger m.insert(name@, value@)]
            props_match(old(props)@, m) ==> props_match(final(props)@, m.insert(name@, value@)),
{
    let mut i: usize = 0;
    while i < props.len()
        invariant
            i <= props@.len(),
            props@ == old(props)@,
            forall|j: int| 0 <= j < i ==> (#[trigger] props@[j]).0@ != name@,
        decreases props@.len() - i,
    {
        if super::todo::str_eq(props[i].0.as_str(), name.as_str()) {
            let ghost before = props@;
            props.set(i, (name, value));
            proof {
                assert forall|m: Map<Seq<char>, Seq<char>>|
                    #![trigger m.insert(name@, value@)]
                    props_match(before, m) implies props_match(props@, m.insert(name@, value@)) by {
                    let m2 = m.insert(name@, value@);
                    assert forall|k: Seq<char>| #[trigger] m2.dom().contains(k) implies exists|j: int|
                        0 <= j < props@.len() && props@[j].0@ == k by {
                        if k == name@ {
                            assert(props@[i as int].0@ == k);
                        } else {
                            let j = choose|j: int| 0 <= j < before.len() && before[j].0@ == k;
                            assert(props@[j].0@ == k);
                        }
                    }
                    assert forall|a: int, b: int| 0 <= a < b < props@.len() implies (
                    #[trigger] props@[a]).0@ != (#[trigger] props@[b]).0@ by {
                        assert(before[a].0@ != before[b].0@);
                    }
                }
            }
            return;
        }
        i = i + 1;
    }
    let ghost before = props@;
    props.push((name, value));
    proof {
        assert forall|m: Map<Seq<char>, Seq<char>>|
            #![trigger m.insert(name@, value@)]
            props_match(before, m) implies props_match(props@, m.insert(name@, value@)) by {
            let m2 = m.insert(name@, value@);
            assert forall|k: Seq<char>| #[trigger] m2.dom().contains(k) implies exists|j: int|
                0 <= j < props@.len() && props@[j].0@ == k by {
                if k == name@ {
                    assert(props@[before.len() as int].0@ == k);
                } else {
                    let j = choose|j: int| 0 <= j < before.len() && before[j].0@ == k;
                    assert(props@[j].0@ == k);
                }
            }
            assert forall|a: int, b: int| 0 <= a < b < props@.len() implies (
            #[trigger] props@[a]).0@ != (#[trigger] props@[b]).0@ by {
                if b < before.len() {
                    assert(before[a].0@ != before[b].0@);
                }
            }
        }
    }
}

/// One property line's name and value, when it has a non-empty name.
fn prop_of(src: &[u8], p: &SyntaxNode) -> (r: Option<(String, String)>)
    requires
        p.wf(src@.len() as int),
    ensures
        match prop_entry(src@, *p) {
            None => r is None,
            Some((k, v, a, b)) => r matches Some((x, y)) && x@ == k && y@ == v,
        },
{
    let nm = match p.child_by_field(FieldName::Name) {
        Some(n) => n,
        None => {
            return None;
        },
    };
    proof {
        lemma_child_wf(*p, *nm, src@.len() as int);
    }
    let name = text_of(src, nm);
    if name.as_str().is_empty() {
        return None;
    }
    let value = match p.child_by_field(FieldName::Value) {
        Some(v) => {
            proof {
                lemma_child_wf(*p, *v, src@.len() as int);
            }
            trimmed(src, v.start, v.end)
        },
        None => String::new(),
    };
    Some((name, value))
}

fn properties_of(src: &[u8], sec: &SyntaxNode) -> (r: (Vec<(String, String)>, Option<Drawer>))
    requires
        sec.wf(src@.len() as int),
    ensures
        props_match(r.0@, pairs_map(section_props(src@, *sec))),
        match field_child(*sec, FieldName::PropertyDrawer) {
            None => r.1 is None,
            Some(pd) => r.1 matches Some(d) && prop_drawer_ok(d, pd, src@),
        },
{
    let mut props: Vec<(String, String)> = Vec::new();
    let pd = match sec.child_by_field(FieldName::PropertyDrawer) {
        Some(pd) => pd,
        None => {
            return (props, None);
        },
    };
    proof {
        lemma_child_wf(*sec, *pd, src@.len() as int);
    }
    let mut first: Option<usize> = None;
    let mut last: Option<usize> = None;
    let mut i: usize = 0;
    proof {
        assert(pd.children@.take(0).filter(is_property()) =~= seq![]);
        assert(pairs_map(seq![]) =~= Map::<Seq<char>, Seq<char>>::empty());
    }
    while i < pd.children.len()
        invariant
            i <= pd.children@.len(),
            pd.wf(src@.len() as int),
            props_match(props@, pairs_map(prop_entries(src@, pd.children@.take(i as int).filter(is_property())))),
            ({
                let es = prop_entries(src@, pd.children@.take(i as int).filter(is_property()));
                &&& (es.len() > 0 ==> first == Some(es[0].2 as usize) && last == Some(es.last().3 as usize))
                &&& (es.len() == 0 ==> first is None && last is None)
                &&& forall|k: int| 0 <= k < es.len() ==> pd.start <= (#[trigger] es[k]).2 <= es[k].3 <= pd.end
            }),
        decreases pd.children@.len() - i,
    {
        let c = &pd.children[i];
        let ghost prev = pd.children@.take(i as int).filter(is_property());
        proof {
            let cs = pd.children@;
            assert(cs.take(i as int).push(cs[i as int]) =~= cs.take(i + 1));
            cs.take(i as int).lemma_filter_push(cs[i as int], is_property());
            assert(c.wf(src@.len() as int));
        }
        if c.named && c.kind == NodeKind::Property {
            proof {
                let now = pd.children@.take(i + 1).filter(is_property());
                assert(now == prev.push(*c));
                assert(now.drop_last() =~= prev);
            }
            match prop_of(src, c) {
                Some((name, value)) => {
                    proof {
                        let es = prop_entries(src@, prev);
                        let es2 = prop_entries(src@, prev.push(*c));
                        assert(es2 == es.push(prop_entry(src@, *c)->0));
                        assert(es2.drop_last() =~= es);
                    }
                    insert_prop(&mut props, name, value);
                    if first.is_none() {
                        first = Some(c.start);
                    }
                    last = Some(c.end);
                },
                None => {
                    proof {
                        let es = prop_entries(src@, prev);
                        assert(prop_entries(src@, prev.push(*c)) =~= es);
                    }
                },
            }
        }
        i = i + 1;
    }
    proof {
        assert(pd.children@.take(i as int) =~= pd.children@);
    }
    let (cs, ce) = match (first, last) {
        (Some(a), Some(b)) => (a, b),
        _ => (pd.end, pd.end),
    };
    let contents = if cs <= ce {
        substring(src, cs, ce)
    } else {
        String::new()
    };
    let mut name = String::new();
    proof {
        reveal_strlit("PROPERTIES");
    }
    name.append("PROPERTIES");
    let d = Drawer {
        kind: DrawerKind::Properties,
        name,
        contents,
        span: pd.start..pd.end,
        contents_span: cs..ce,
    };
    proof {
        let es = prop_entries(src@, pd.children@.filter(is_property()));
        assert(d.name@ =~= properties_name());
        if es.len() > 0 {
            assert(cs as int == es[0].2);
            assert(ce as int == es.last().3);
        }
        assert(prop_drawer_ok(d, *pd, src@));
    }
    (props, Some(d))
}

fn logbook_bytes() -> (r: Vec<u8>)
    ensures
        r@ == logbook_word(),
{
    let r = vec![76u8, 79, 71, 66, 79, 79, 75];
    assert(r@ =~= logbook_word());
    r
}

/// CLOCK entries of the contents range `src[cs..ce)`.
fn clocks_in(src: &[u8], cs: usize, ce: usize) -> (r: Vec<ClockEntry>)
    requires
        cs <= ce <= src@.len(),
    ensures
        clocks_ok(r@, clock_items(src@, cs as int, ce as int), src@),
{
    let sub = vstd::slice::slice_subrange(src, cs, ce);
    let r = super::drawer::clock_lines_bytes(sub, cs);
    proof {
        super::drawer::lemma_clock_parses_bounds(sub@, 0);
        let items = clock_items(src@, cs as int, ce as int);
        let ps = clock_parses_from(sub@, 0);
        assert forall|i: int| 0 <= i < r@.len() implies entry_from(
            #[trigger] r@[i],
            items[i].0,
            src@.subrange(items[i].1, items[i].2),
            items[i].1,
        ) by {
            let (p, lo, hi) = ps[i];
            assert(sub@.subrange(lo, hi) =~= src@.subrange(cs + lo, cs + hi));
        }
    }
    r
}

fn body_drawers_of(src: &[u8], sec: &SyntaxNode) -> (r: (Vec<Drawer>, Vec<ClockEntry>))
    requires
        sec.wf(src@.len() as int),
    ensures
        r.0@.len() == body_drawers(*sec).len(),
        forall|i: int| 0 <= i < r.0@.len() ==> body_drawer_ok(#[trigger] r.0@[i], body_drawers(*sec)[i], src@),
        clocks_ok(r.1@, drawers_clocks(src@, body_drawers(*sec)), src@),
{
    let mut drawers: Vec<Drawer> = Vec::new();
    let mut clocks: Vec<ClockEntry> = Vec::new();
    let body = match sec.child_by_field(FieldName::Body) {
        Some(b) => b,
        None => {
            return (drawers, clocks);
        },
    };
    proof {
        lemma_child_wf(*sec, *body, src@.len() as int);
    }
    let lw = logbook_bytes();
    let mut i: usize = 0;
    proof {
        assert(body.children@.take(0).filter(is_drawer()) =~= seq![]);
    }
    while i < body.children.len()
        invariant
            i <= body.children@.len(),
            body.wf(src@.len() as int),
            lw@ == logbook_word(),
            drawers@.len() == body.children@.take(i as int).filter(is_drawer()).len(),
            forall|k: int|
                0 <= k < drawers@.len() ==> body_drawer_ok(
                    #[trigger] drawers@[k],
                    body.children@.take(i as int).filter(is_drawer())[k],
                    src@,
                ),
            clocks_ok(clocks@, drawers_clocks(src@, body.children@.take(i as int).filter(is_drawer())), src@),
        decreases body.children@.len() - i,
    {
        let c = &body.children[i];
        let ghost prev = body.children@.take(i as int).filter(is_drawer());
        proof {
            let cs = body.children@;
            assert(cs.take(i as int).push(cs[i as int]) =~= cs.take(i + 1));
            cs.take(i as int).lemma_filter_push(cs[i as int], is_drawer());
            assert(c.wf(src@.len() as int));
        }
        if c.named && c.kind == NodeKind::Drawer {
            let ghost now = prev.push(*c);
            proof {
                assert(body.children@.take(i + 1).filter(is_drawer()) == now);
                assert(now.drop_last() =~= prev);
            }
            let (name, logbook) = match c.child_by_field(FieldName::Name) {
                Some(nm) => {
                    proof {
                        lemma_child_wf(*c, *nm, src@.len() as int);
                    }
                    (text_of(src, nm), crate::text::eq_ignore_case_range(src, nm.start, nm.end, lw.as_slice()))
                },
                None => (String::new(), false),
            };
            let (cs, ce) = match c.child_by_field(FieldName::Contents) {
                Some(cn) => {
                    proof {
                        lemma_child_wf(*c, *cn, src@.len() as int);
                    }
                    (cn.start, cn.end)
                },
                None => (c.end, c.end),
            };
            let contents = substring(src, cs, ce);
            let kind = if logbook {
                DrawerKind::Logbook
            } else {
                DrawerKind::Custom(name.clone())
            };
            if logbook {
                let mut more = clocks_in(src, cs, ce);
                let ghost before = clocks@;
                let ghost added = more@;
                clocks.append(&mut more);
                proof {
                    let items_prev = drawers_clocks(src@, prev);
                    let items_new = clock_items(src@, cs as int, ce as int);
                    assert(drawers_clocks(src@, now) == items_prev + items_new);
                    assert(clocks@ == before + added);
                    assert forall|k: int| 0 <= k < clocks@.len() implies entry_from(
                        #[trigger] clocks@[k],
                        (items_prev + items_new)[k].0,
                        src@.subrange((items_prev + items_new)[k].1, (items_prev + items_new)[k].2),
                        (items_prev + items_new)[k].1,
                    ) by {
                        if k < before.len() {
                            assert(clocks@[k] == before[k]);
                        } else {
                            assert(clocks@[k] == added[k - before.len()]);
                        }
                    }
                }
            } else {
                proof {
                    assert(drawers_clocks(src@, now) =~= drawers_clocks(src@, prev));
                }
            }
            drawers.push(Drawer { kind, name, contents, span: c.start..c.end, contents_span: cs..ce });
        }
        i = i + 1;
    }
    proof {
        assert(body.children@.take(i as int) =~= body.children@);
    }
    (drawers, clocks)
}

// ---------------------------------------------------------------------------
// Whole sections.
// ---------------------------------------------------------------------------

/// End of the section's own region: the start of its first subsection, or
/// the section's end.
pub open spec fn own_end(sec: SyntaxNode) -> int {
    match field_child(sec, FieldName::Subsection) {
        Some(c) => c.start as int,
        None => sec.end as int,
    }
}

/// A child that yields a headline: a subsection with a headline line.
pub open spec fn keeps(c: SyntaxNode) -> bool {
    c.field == Some(FieldName::Subsection) && field_child(c, FieldName::Headline) is Some
}

/// Indices of the children among the first `n` of `cs` that yield
/// headlines, in order.
pub open spec fn kept_upto(cs: Seq<SyntaxNode>, n: int) -> Seq<int>
    decreases n,
{
    if n <= 0 {
        seq![]
    } else {
        kept_upto(cs, n - 1) + if keeps(cs[n - 1]) {
            seq![n - 1]
        } else {
            seq![]
        }
    }
}

/// Indices of the children of `sec` that yield headlines, in order.
pub open spec fn kept(sec: SyntaxNode) -> Seq<int> {
    kept_upto(sec.children@, sec.children@.len() as int)
}

pub proof fn lemma_kept_upto(cs: Seq<SyntaxNode>, n: int)
    requires
        0 <= n <= cs.len(),
    ensures
        forall|i: int| 0 <= i < kept_upto(cs, n).len() ==> 0 <= #[trigger] kept_upto(cs, n)[i] < n,
        forall|i: int, j: int| 0 <= i < j < kept_upto(cs, n).len() ==> #[trigger] kept_upto(cs, n)[i] < #[trigger] kept_upto(cs, n)[j],
        forall|i: int| 0 <= i < kept_upto(cs, n).len() ==> keeps(cs[#[trigger] kept_upto(cs, n)[i]]),
    decreases n,
{
    if n > 0 {
        lemma_kept_upto(cs, n - 1);
        let p = kept_upto(cs, n - 1);
        let k = kept_upto(cs, n);
        if keeps(cs[n - 1]) {
            assert(k == p.push(n - 1));
            assert forall|i: int| 0 <= i < k.len() implies 0 <= #[trigger] k[i] < n && keeps(cs[k[i]]) by {
                if i < p.len() {
                    assert(k[i] == p[i]);
                }
            }
            assert forall|i: int, j: int| 0 <= i < j < k.len() implies #[trigger] k[i] < #[trigger] k[j] by {
                assert(k[i] == p[i]);
                if j < p.len() {
                    assert(k[j] == p[j]);
                }
            }
        } else {
            assert(k =~= p);
        }
    }
}

/// Every field of `h` except `raw` (here and in every descendant) is what
/// the section node `sec` gives.
pub open spec fn fields_ok(h: Headline, sec: SyntaxNode, src: Seq<u8>, cfg: Seq<(Seq<Seq<char>>, Seq<Seq<char>>)>) -> bool {
    match field_child(sec, FieldName::Headline) {
        None => false,
        Some(hn) => {
            let tt = todo_title_spec(src, hn, cfg);
            let pd = field_child(sec, FieldName::PropertyDrawer);
            let off: int = if pd is Some {
                1
            } else {
                0
            };
            let bd = body_drawers(sec);
            &&& h.level as int == level_spec(hn)
            &&& match tt.0 {
                None => h.todo_state is None,
                Some((k, d, a, b)) => h.todo_state matches Some(ts) && ts.keyword@ == k && ts.done == d
                    && ts.span.start == a && ts.span.end == b,
            }
            &&& h.title@ == tt.1
            &&& h.tags@.len() == tag_nodes(hn).len()
            &&& forall|j: int| 0 <= j < h.tags@.len() ==> tag_ok(#[trigger] h.tags@[j], tag_nodes(hn)[j], src)
            &&& planned_ok(h.scheduled, first_entry_match(src, plan_entries(sec), w_scheduled()), src)
            &&& planned_ok(h.deadline, first_entry_match(src, plan_entries(sec), w_deadline()), src)
            &&& planned_ok(h.closed, first_entry_match(src, plan_entries(sec), w_closed()), src)
            &&& props_match(h.properties@, pairs_map(section_props(src, sec)))
            &&& h.drawers@.len() == off + bd.len()
            &&& (pd matches Some(p) ==> prop_drawer_ok(h.drawers@[0], p, src))
            &&& forall|j: int| 0 <= j < bd.len() ==> body_drawer_ok(h.drawers@[off + j], #[trigger] bd[j], src)
            &&& clocks_ok(h.clocks@, drawers_clocks(src, bd), src)
            &&& links_scanned(h.links@, src.subrange(sec.start as int, own_end(sec)), sec.start as int)
            &&& h.span.start == sec.start && h.span.end == sec.end
        },
    }
}

/// `h` and all its descendants are what the section `sec` gives (all fields
/// but `raw`).
pub open spec fn tree_ok(h: Headline, sec: SyntaxNode, src: Seq<u8>, cfg: Seq<(Seq<Seq<char>>, Seq<Seq<char>>)>) -> bool
    decreases sec,
{
    &&& fields_ok(h, sec, src, cfg)
    &&& h.children@.len() == kept(sec).len()
    &&& forall|i: int|
        0 <= i < h.children@.len() ==> 0 <= #[trigger] kept(sec)[i] < sec.children@.len()
            && tree_ok(h.children@[i], sec.children@[kept(sec)[i]], src, cfg)
}

/// The `raw` of `h` and of every descendant is its section's own region.
pub open spec fn raws_ok(h: Headline, sec: SyntaxNode, src: Seq<u8>) -> bool
    decreases sec,
{
    &&& h.raw@ == decoded(src.subrange(sec.start as int, own_end(sec)))
    &&& h.children@.len() == kept(sec).len()
    &&& forall|i: int|
        0 <= i < h.children@.len() ==> 0 <= #[trigger] kept(sec)[i] < sec.children@.len()
            && raws_ok(h.children@[i], sec.children@[kept(sec)[i]], src)
}

pub(crate) fn own_end_of(sec: &SyntaxNode) -> (r: usize)
    ensures
        r as int == own_end(*sec),
        r == sec.end || exists|i: int| 0 <= i < sec.children@.len() && sec.children@[i].start == r,
{
    match sec.child_by_field(FieldName::Subsection) {
        Some(c) => c.start,
        None => sec.end,
    }
}

/// Build the headline of a grammar `section` node over the source bytes
/// `src`; `None` when the section has no headline line.
pub(crate) fn section_headline(sec: &SyntaxNode, src: &[u8], config: &TodoConfig) -> (r: Option<Headline>)
    requires
        sec.wf(src@.len() as int),
    ensures
        r is Some <==> field_child(*sec, FieldName::Headline) is Some,
        r matches Some(h) ==> tree_ok(h, *sec, src@, config@) && raws_ok(h, *sec, src@),
    decreases sec,
{
    let hn = match sec.child_by_field(FieldName::Headline) {
        Some(hn) => hn,
        None => {
            return None;
        },
    };
    proof {
        lemma_child_wf(*sec, *hn, src@.len() as int);
    }
    let level = level_of(hn);
    let (todo_state, title) = todo_and_title(src, hn, config);
    let tags = tags_of(src, hn);
    let (scheduled, deadline, closed) = planning_of(src, sec);
    let (properties, pdrawer) = properties_of(src, sec);
    let (mut body, clocks) = body_drawers_of(src, sec);
    let mut drawers: Vec<Drawer> = Vec::new();
    match pdrawer {
        Some(d) => drawers.push(d),
        None => {},
    }
    let ghost pre = drawers@;
    let ghost body0 = body@;
    drawers.append(&mut body);
    let own = own_end_of(sec);
    proof {
        if own != sec.end {
            let i = choose|i: int| 0 <= i < sec.children@.len() && sec.children@[i].start == own;
            assert(sec.children@[i].wf(src@.len() as int));
        }
    }
    let region = vstd::slice::slice_subrange(src, sec.start, own);
    let links = scan_links_bytes(region, sec.start);
    let raw = substring(src, sec.start, own);
    let mut children: Vec<Headline> = Vec::new();
    let mut j: usize = 0;
    while j < sec.children.len()
        invariant
            j <= sec.children@.len(),
            sec.wf(src@.len() as int),
            children@.len() == kept_upto(sec.children@, j as int).len(),
            forall|i: int|
                0 <= i < children@.len() ==> tree_ok(
                    #[trigger] children@[i],
                    sec.children@[kept_upto(sec.children@, j as int)[i]],
                    src@,
                    config@,
                ) && raws_ok(children@[i], sec.children@[kept_upto(sec.children@, j as int)[i]], src@),
        decreases sec.children@.len() - j,
    {
        let c = &sec.children[j];
        proof {
            assert(c.wf(src@.len() as int));
            lemma_kept_upto(sec.children@, j as int);
        }
        if c.field == Some(FieldName::Subsection) {
            match section_headline(c, src, config) {
                Some(h) => {
                    children.push(h);
                },
                None => {},
            }
        }
        proof {
            let prev = kept_upto(sec.children@, j as int);
            let now = kept_upto(sec.children@, j + 1);
            if keeps(*c) {
                assert(now == prev.push(j as int));
            } else {
                assert(now =~= prev);
            }
        }
        j = j + 1;
    }
    let h = Headline {
        level,
        todo_state,
        title,
        tags,
        scheduled,
        deadline,
        closed,
        properties,
        drawers,
        clocks,
        links,
        span: sec.start..sec.end,
        children,
        raw,
    };
    proof {
        lemma_kept_upto(sec.children@, sec.children@.len() as int);
        let pd = field_child(*sec, FieldName::PropertyDrawer);
        let off: int = if pd is Some {
            1
        } else {
            0
        };
        let bd = body_drawers(*sec);
        assert(h.drawers@.len() == off + bd.len());
        assert forall|k: int| 0 <= k < bd.len() implies body_drawer_ok(h.drawers@[off + k], #[trigger] bd[k], src@) by {
            assert(h.drawers@[off + k] == body0[k]) by {
                assert(h.drawers@ == pre + body0);
            }
        }
        assert(fields_ok(h, *sec, src@, config@));
    }
    Some(h)
}

/// Build one [`Headline`] from a grammar `section` node of `source`.
/// Returns `None` only when the section has no headline line.
pub fn build_section(section: &SyntaxNode, source: &str, config: &TodoConfig) -> (r: Option<Headline>)
    requires
        section.wf(source.spec_bytes().len() as int),
    ensures
        r is Some <==> field_child(*section, FieldName::Headline) is Some,
        r matches Some(h) ==> tree_ok(h, *section, source.spec_bytes(), config@) && raws_ok(
            h,
            *section,
            source.spec_bytes(),
        ),
{
    section_headline(section, source.as_bytes(), config)
}


// ---------------------------------------------------------------------------
// The shape of a built headline.
// ---------------------------------------------------------------------------

proof fn lemma_child_headline(h: Headline, sec: SyntaxNode, src: Seq<u8>, cfg: Seq<(Seq<Seq<char>>, Seq<Seq<char>>)>, i: int)
    requires
        sec.wf(src.len() as int),
        tree_ok(h, sec, src, cfg),
        0 <= i < h.children@.len(),
    ensures
        0 <= kept(sec)[i] < sec.children@.len(),
        h.children@[i].span.start == sec.children@[kept(sec)[i]].start,
        h.children@[i].span.end == sec.children@[kept(sec)[i]].end,
        sec.start <= h.children@[i].span.start <= h.children@[i].span.end <= sec.end,
{
    let c = sec.children@[kept(sec)[i]];
    assert(tree_ok(h.children@[i], c, src, cfg));
    assert(fields_ok(h.children@[i], c, src, cfg));
    assert(c.wf(src.len() as int));
}

proof fn lemma_children_follow_on(h: Headline, sec: SyntaxNode, src: Seq<u8>, cfg: Seq<(Seq<Seq<char>>, Seq<Seq<char>>)>, i: int, j: int)
    requires
        sec.wf(src.len() as int),
        tree_ok(h, sec, src, cfg),
        crate::serializer::nested_ok(sec),
        0 <= i < j < h.children@.len(),
    ensures
        h.children@[i].span.end <= h.children@[j].span.start,
    decreases j - i,
{
    let k = kept(sec);
    lemma_child_headline(h, sec, src, cfg, i);
    lemma_child_headline(h, sec, src, cfg, j);
    lemma_child_headline(h, sec, src, cfg, j - 1);
    assert(sec.children@[k[j - 1]].end == sec.children@[k[j]].start) by {
        assert(0 <= j - 1 && j == (j - 1) + 1 && j < k.len());
        assert(0 <= k[j - 1] < sec.children@.len() && 0 <= k[j] < sec.children@.len());
    }
    if i < j - 1 {
        lemma_children_follow_on(h, sec, src, cfg, i, j - 1);
    }
}

proof fn lemma_title_trimmed(h: Headline, sec: SyntaxNode, src: Seq<u8>, cfg: Seq<(Seq<Seq<char>>, Seq<Seq<char>>)>)
    requires
        sec.wf(src.len() as int),
        fields_ok(h, sec, src, cfg),
    ensures
        h.title@.len() == 0 || exists|x: int, e: int|
            0 <= x <= e <= src.len() && crate::text::trimmed_range(src, x, e) && h.title@ == decoded(
                #[trigger] src.subrange(x, e),
            ),
{
    let hn = field_child(sec, FieldName::Headline)->0;
    let q = super::tree::first_with_field(sec.children@, FieldName::Headline, 0);
    super::tree::lemma_first_with_field(sec.children@, FieldName::Headline, 0);
    assert(sec.children@[q] == hn);
    assert(hn.wf(src.len() as int));
    match field_child(hn, FieldName::Item) {
        None => {},
        Some(item) => {
            let qi = super::tree::first_with_field(hn.children@, FieldName::Item, 0);
            super::tree::lemma_first_with_field(hn.children@, FieldName::Item, 0);
            assert(hn.children@[qi] == item);
            assert(item.end <= src.len());
            let tt = todo_title_spec(src, hn, cfg);
            let ts: int = match first_named(item.children@) {
                Some(first) => match classify_in(cfg, node_text(src, first)) {
                    Some(done) => first.end as int,
                    None => item.start as int,
                },
                None => item.start as int,
            };
            assert(tt.1 == trimmed_text(src, ts, item.end as int));
            if ts <= item.end {
                crate::text::lemma_trim_both(src, ts, item.end as int);
                let x = skip_ws(src, ts, item.end as int);
                let e = trim_end_at(src, x, item.end as int);
                assert(h.title@ == decoded(src.subrange(x, e)));
            }
        },
    }
}

/// What [`build_section`] builds has the section's shape: the headline
/// spans its section; every child headline lies inside it, and when the
/// nested sections tile their parent the children come in order without
/// overlap; a TODO keyword is a configured one, with its done-class, read
/// from its own span; and every link lies, in order, in the section's own
/// region before its first subsection.
pub proof fn lemma_built_section_shape(h: Headline, sec: SyntaxNode, src: Seq<u8>, cfg: Seq<(Seq<Seq<char>>, Seq<Seq<char>>)>)
    requires
        sec.wf(src.len() as int),
        tree_ok(h, sec, src, cfg),
    ensures
        h.span.start == sec.start && h.span.end == sec.end,
        forall|i: int|
            0 <= i < h.children@.len() ==> sec.start <= (#[trigger] h.children@[i]).span.start
                <= h.children@[i].span.end <= sec.end,
        crate::serializer::nested_ok(sec) ==> forall|i: int, j: int|
            0 <= i < j < h.children@.len() ==> (#[trigger] h.children@[i]).span.end <= (
            #[trigger] h.children@[j]).span.start,
        h.todo_state matches Some(ts) ==> classify_in(cfg, ts.keyword@) == Some(ts.done) && ts.keyword@
            == decoded(src.subrange(ts.span.start as int, ts.span.end as int)),
        h.title@.len() == 0 || exists|x: int, e: int|
            0 <= x <= e <= src.len() && crate::text::trimmed_range(src, x, e) && h.title@ == decoded(
                #[trigger] src.subrange(x, e),
            ),
        forall|k: int|
            0 <= k < h.links@.len() ==> sec.start <= (#[trigger] h.links@[k]).span.start
                < h.links@[k].span.end <= own_end(sec),
        forall|a: int, b: int|
            0 <= a < b < h.links@.len() ==> (#[trigger] h.links@[a]).span.end <= (
            #[trigger] h.links@[b]).span.start,
{
    assert(fields_ok(h, sec, src, cfg));
    lemma_title_trimmed(h, sec, src, cfg);
    assert forall|i: int| 0 <= i < h.children@.len() implies sec.start <= (
    #[trigger] h.children@[i]).span.start <= h.children@[i].span.end <= sec.end by {
        lemma_child_headline(h, sec, src, cfg, i);
    }
    if crate::serializer::nested_ok(sec) {
        assert forall|i: int, j: int| 0 <= i < j < h.children@.len() implies (
        #[trigger] h.children@[i]).span.end <= (#[trigger] h.children@[j]).span.start by {
            lemma_children_follow_on(h, sec, src, cfg, i, j);
        }
    }
    // The own region lies inside the section.
    match field_child(sec, FieldName::Subsection) {
        Some(c) => {
            let q = super::tree::first_with_field(sec.children@, FieldName::Subsection, 0);
            super::tree::lemma_first_with_field(sec.children@, FieldName::Subsection, 0);
            assert(sec.children@[q] == c);
            assert(c.wf(src.len() as int));
        },
        None => {},
    }
    assert(sec.start <= own_end(sec) <= sec.end <= src.len());
    let sub = src.subrange(sec.start as int, own_end(sec));
    assert(sub.len() == own_end(sec) - sec.start);
    super::link::lemma_links_ordered(sub, 0);
    let found = super::link::links_from(sub, 0);
    assert forall|k: int| 0 <= k < h.links@.len() implies sec.start <= (#[trigger] h.links@[k]).span.start
        < h.links@[k].span.end <= own_end(sec) by {
        assert(super::link::link_is(h.links@[k], sub, sec.start as int, found[k]));
    }
    assert forall|a: int, b: int| 0 <= a < b < h.links@.len() implies (#[trigger] h.links@[a]).span.end
        <= (#[trigger] h.links@[b]).span.start by {
        assert(super::link::link_is(h.links@[a], sub, sec.start as int, found[a]));
        assert(super::link::link_is(h.links@[b], sub, sec.start as int, found[b]));
    }
}

} // verus!
