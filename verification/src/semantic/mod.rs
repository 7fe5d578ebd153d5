//! Semantic layer: typed org semantics over the syntax tree.
//!
//! [`analyze`] lifts a document's syntax tree into owned semantic structs:
//! [`Document`] → [`headline::Headline`] (TODO state, tags, planning
//! timestamps, properties, drawers, clock entries, links). Every struct that
//! maps to a source region carries its byte span. Malformed sub-constructs
//! degrade to raw text or `None` fields, never errors.
use core::ops::Range;
use vstd::prelude::*;
use vstd::string::{StringExecFns, StringSliceAdditionalSpecFns};

use crate::text::decoded;
use headline::{node_text, trimmed_text, Headline};
use link::Link;
use todo::TodoConfig;
use tree::{field_child, FieldName, NodeKind, SyntaxNode};

pub mod drawer;
pub mod headline;
pub mod link;
pub mod reparse;
pub mod timestamp;
pub mod todo;
pub mod tree;

verus! {

/// One `#+NAME: value` directive line.
#[derive(Debug, PartialEq, Eq)]
pub struct Directive {
    /// Directive name without the `#+`/`:` framing (e.g. `TITLE`, `TODO`).
    pub name: String,
    /// The directive's value text, trimmed.
    pub value: String,
    /// Byte range of the whole directive line in the analyzed source.
    pub span: Range<usize>,
}

impl Clone for Directive {
    fn clone(&self) -> (r: Self)
        ensures
            r == *self,
    {
        Directive {
            name: self.name.clone(),
            value: self.value.clone(),
            span: self.span.start..self.span.end,
        }
    }
}

/// Document-level content before the first headline.
#[derive(Debug, PartialEq, Eq)]
pub struct Preamble {
    /// Raw preamble text, exactly as written.
    pub text: String,
    /// Byte range of `text` in the analyzed source.
    pub span: Range<usize>,
    /// Links found in the preamble.
    pub links: Vec<Link>,
    /// Directives located in the preamble (e.g. `#+TITLE:`, `#+TODO:`).
    pub directives: Vec<Directive>,
}

/// The semantic view of one org document.
#[derive(Debug)]
pub struct Document {
    /// Top-level headlines, in document order; nesting via `children`.
    pub headlines: Vec<Headline>,
    /// The resolved TODO keyword configuration: in-file `#+TODO:` directives
    /// (accumulated) or the default sequence.
    pub todo_config: TodoConfig,
    /// Content before the first headline, when any.
    pub preamble: Option<Preamble>,
    /// Byte range of the full analyzed source (`0..source.len()`).
    pub span: Range<usize>,
}

/// A directive node's name, trimmed value, start and end; `None` for other
/// nodes and for a directive without a (non-empty) name.
pub open spec fn directive_of(src: Seq<u8>, n: SyntaxNode) -> Option<(Seq<char>, Seq<char>, int, int)> {
    if n.kind != NodeKind::Directive {
        None
    } else {
        let name = match field_child(n, FieldName::Name) {
            Some(nm) => node_text(src, nm),
            None => seq![],
        };
        if name.len() == 0 {
            None
        } else {
            let value = match field_child(n, FieldName::Value) {
                Some(v) => trimmed_text(src, v.start as int, v.end as int),
                None => seq![],
            };
            Some((name, value, n.start as int, n.end as int))
        }
    }
}

/// Every directive of the tree under `n`, in pre-order.
pub open spec fn tree_directives(src: Seq<u8>, n: SyntaxNode) -> Seq<(Seq<char>, Seq<char>, int, int)>
    decreases n, 1int, 0int,
{
    (match directive_of(src, n) {
        Some(x) => seq![x],
        None => seq![],
    }) + kids_directives(src, n, n.children@.len() as int)
}

/// The directives under the first `k` children of `n`, in pre-order.
pub open spec fn kids_directives(src: Seq<u8>, n: SyntaxNode, k: int) -> Seq<(Seq<char>, Seq<char>, int, int)>
    decreases n, 0int, k,
{
    if k <= 0 || k > n.children@.len() {
        seq![]
    } else {
        kids_directives(src, n, k - 1) + tree_directives(src, n.children@[k - 1])
    }
}

/// `d` is the directive `x` describes.
pub open spec fn directive_ok(d: Directive, x: (Seq<char>, Seq<char>, int, int)) -> bool {
    &&& d.name@ == x.0
    &&& d.value@ == x.1
    &&& d.span.start == x.2 && d.span.end == x.3
}

/// `ds` holds exactly the directives `xs` describes.
pub open spec fn directives_ok(ds: Seq<Directive>, xs: Seq<(Seq<char>, Seq<char>, int, int)>) -> bool {
    &&& ds.len() == xs.len()
    &&& forall|i: int| 0 <= i < ds.len() ==> directive_ok(#[trigger] ds[i], xs[i])
}

fn directive_node(n: &SyntaxNode, src: &[u8]) -> (r: Option<Directive>)
    requires
        n.wf(src@.len() as int),
    ensures
        match directive_of(src@, *n) {
            None => r is None,
            Some(x) => r matches Some(d) && directive_ok(d, x),
        },
{
    if n.kind != NodeKind::Directive {
        return None;
    }
    let name = match n.child_by_field(FieldName::Name) {
        Some(nm) => {
            proof {
                let i = choose|i: int| 0 <= i < n.children@.len() && n.children@[i] == *nm;
                assert(n.children@[i].wf(src@.len() as int));
            }
            crate::text::substring(src, nm.start, nm.end)
        },
        None => String::new(),
    };
    if name.as_str().is_empty() {
        return None;
    }
    let value = match n.child_by_field(FieldName::Value) {
        Some(v) => {
            proof {
                let i = choose|i: int| 0 <= i < n.children@.len() && n.children@[i] == *v;
                assert(n.children@[i].wf(src@.len() as int));
            }
            headline::trimmed_pub(src, v.start, v.end)
        },
        None => String::new(),
    };
    Some(Directive { name, value, span: n.start..n.end })
}

/// Append every directive under `n`, in pre-order.
fn collect_into(n: &SyntaxNode, src: &[u8], out: &mut Vec<Directive>)
    requires
        n.wf(src@.len() as int),
    ensures
        final(out)@.len() == old(out)@.len() + tree_directives(src@, *n).len(),
        forall|i: int| 0 <= i < old(out)@.len() ==> final(out)@[i] == old(out)@[i],
        forall|i: int|
            0 <= i < tree_directives(src@, *n).len() ==> directive_ok(
                #[trigger] final(out)@[old(out)@.len() + i],
                tree_directives(src@, *n)[i],
            ),
    decreases n,
{
    let ghost base = out@;
    match directive_node(n, src) {
        Some(d) => out.push(d),
        None => {},
    }
    let ghost own = match directive_of(src@, *n) {
        Some(x) => seq![x],
        None => seq![],
    };
    let mut j: usize = 0;
    while j < n.children.len()
        invariant
            j <= n.children@.len(),
            n.wf(src@.len() as int),
            own == match directive_of(src@, *n) {
                Some(x) => seq![x],
                None => seq![],
            },
            out@.len() == base.len() + own.len() + kids_directives(src@, *n, j as int).len(),
            forall|i: int| 0 <= i < base.len() ==> out@[i] == base[i],
            forall|i: int|
                0 <= i < own.len() + kids_directives(src@, *n, j as int).len() ==> directive_ok(
                    #[trigger] out@[base.len() + i],
                    (own + kids_directives(src@, *n, j as int))[i],
                ),
        decreases n.children@.len() - j,
    {
        let ghost before = out@;
        proof {
            assert(n.children@[j as int].wf(src@.len() as int));
        }
        collect_into(&n.children[j], src, out);
        proof {
            let sub = tree_directives(src@, n.children@[j as int]);
            let prev = own + kids_directives(src@, *n, j as int);
            assert(own + kids_directives(src@, *n, j + 1) =~= prev + sub);
            assert forall|i: int| 0 <= i < prev.len() + sub.len() implies directive_ok(
                #[trigger] out@[base.len() + i],
                (prev + sub)[i],
            ) by {
                if i < prev.len() {
                    assert(out@[base.len() + i] == before[base.len() + i]);
                } else {
                    assert(out@[base.len() + i] == out@[before.len() + (i - prev.len())]);
                }
            }
        }
        j = j + 1;
    }
    proof {
        assert(own + kids_directives(src@, *n, n.children@.len() as int) =~= tree_directives(
            src@,
            *n,
        ));
    }
}

/// Collect every `directive` node of the tree, in document order.
pub fn collect_directives(root: &SyntaxNode, source: &str) -> (r: Vec<Directive>)
    requires
        root.wf(source.spec_bytes().len() as int),
    ensures
        directives_ok(r@, tree_directives(source.spec_bytes(), *root)),
{
    let mut out: Vec<Directive> = Vec::new();
    collect_into(root, source.as_bytes(), &mut out);
    proof {
        let xs = tree_directives(source.spec_bytes(), *root);
        assert forall|i: int| 0 <= i < out@.len() implies directive_ok(#[trigger] out@[i], xs[i]) by {
            assert(directive_ok(out@[0 + i], xs[i]));
        }
    }
    out
}

/// `TODO`, `SEQ_TODO` and `TYP_TODO` (any ASCII case) name TODO directives.
pub open spec fn todo_name(name: Seq<char>) -> bool {
    let b = vstd::utf8::encode_utf8(name);
    crate::text::eq_ignore_case(b, seq![84u8, 79, 68, 79]) || crate::text::eq_ignore_case(
        b,
        seq![83u8, 69, 81, 95, 84, 79, 68, 79],
    ) || crate::text::eq_ignore_case(b, seq![84u8, 89, 80, 95, 84, 79, 68, 79])
}

/// The values (as UTF-8) of the TODO directives among `xs`, in order.
pub open spec fn todo_values(xs: Seq<(Seq<char>, Seq<char>, int, int)>) -> Seq<Seq<u8>>
    decreases xs.len(),
{
    if xs.len() == 0 {
        seq![]
    } else {
        todo_values(xs.drop_last()) + if todo_name(xs.last().0) {
            seq![vstd::utf8::encode_utf8(xs.last().1)]
        } else {
            seq![]
        }
    }
}

/// The directives among `xs` lying inside `[a, b]`.
pub open spec fn directives_within(xs: Seq<(Seq<char>, Seq<char>, int, int)>, a: int, b: int) -> Seq<(Seq<char>, Seq<char>, int, int)> {
    xs.filter(|x: (Seq<char>, Seq<char>, int, int)| x.2 >= a && x.3 <= b)
}

/// Where the preamble's body ends (0 without one).
pub open spec fn body_end(root: SyntaxNode) -> int {
    match field_child(root, FieldName::Body) {
        Some(b) => b.end as int,
        None => 0,
    }
}

/// The coverage cursor after the first `n` children of the root: the
/// body's end, pushed forward over every headline section.
pub open spec fn pos_after(root: SyntaxNode, n: int) -> int
    decreases n,
{
    if n <= 0 || n > root.children@.len() {
        body_end(root)
    } else {
        let p = pos_after(root, n - 1);
        let c = root.children@[n - 1];
        if headline::keeps(c) && c.end > p {
            c.end as int
        } else {
            p
        }
    }
}

/// The coverage cursor after all top-level sections.
pub open spec fn final_pos(root: SyntaxNode) -> int {
    pos_after(root, root.children@.len() as int)
}

/// Bytes before a top-level section not yet covered: prepended to its
/// headline's `raw`.
pub open spec fn gap_text(src: Seq<u8>, root: SyntaxNode, j: int) -> Seq<char> {
    let c = root.children@[j];
    if c.start > pos_after(root, j) {
        decoded(src.subrange(pos_after(root, j), c.start as int))
    } else {
        seq![]
    }
}

/// Bytes after every retained region: appended to the last emitted one.
pub open spec fn tail_text(src: Seq<u8>, root: SyntaxNode) -> Seq<char> {
    if final_pos(root) < src.len() {
        decoded(src.subrange(final_pos(root), src.len() as int))
    } else {
        seq![]
    }
}

/// The `raw` of `h` and its descendants is its own region, with `gap`
/// prepended and `tail` appended to the last region it emits.
pub open spec fn raws_adjusted(h: Headline, sec: SyntaxNode, src: Seq<u8>, gap: Seq<char>, tail: Seq<char>) -> bool
    decreases sec,
{
    &&& h.raw@ == gap + decoded(src.subrange(sec.start as int, headline::own_end(sec))) + if h.children@.len() == 0 {
        tail
    } else {
        seq![]
    }
    &&& h.children@.len() == headline::kept(sec).len()
    &&& forall|i: int|
        0 <= i < h.children@.len() ==> 0 <= #[trigger] headline::kept(sec)[i] < sec.children@.len()
            && raws_adjusted(
            h.children@[i],
            sec.children@[headline::kept(sec)[i]],
            src,
            seq![],
            if i == h.children@.len() - 1 {
                tail
            } else {
                seq![]
            },
        )
}

/// The preamble of the analyzed document.
pub open spec fn preamble_ok(p: Option<Preamble>, root: SyntaxNode, src: Seq<u8>, dirs: Seq<(Seq<char>, Seq<char>, int, int)>) -> bool {
    let n = src.len() as int;
    let fp = final_pos(root);
    let absorbs = headline::kept(root).len() == 0 && fp < n;
    match field_child(root, FieldName::Body) {
        Some(b) => p matches Some(x) && x.span.start == 0 && link::links_scanned(
            x.links@,
            src.subrange(0, b.end as int),
            0,
        ) && directives_ok(x.directives@, directives_within(dirs, 0, b.end as int)) && if absorbs {
            x.text@ == decoded(src.subrange(0, b.end as int)) + decoded(src.subrange(fp, n))
                && x.span.end == n
        } else {
            x.text@ == decoded(src.subrange(0, b.end as int)) && x.span.end == b.end
        },
        None => if absorbs {
            p matches Some(x) && x.text@ == decoded(src.subrange(fp, n)) && x.span.start == fp
                && x.span.end == n && link::links_scanned(x.links@, src.subrange(fp, n), fp)
                && directives_ok(x.directives@, directives_within(dirs, fp, n))
        } else {
            p is None
        },
    }
}

pub proof fn lemma_raws_ok_adjusted(h: Headline, sec: SyntaxNode, src: Seq<u8>)
    requires
        headline::raws_ok(h, sec, src),
    ensures
        raws_adjusted(h, sec, src, seq![], seq![]),
    decreases sec,
{
    assert forall|i: int| 0 <= i < h.children@.len() implies 0 <= #[trigger] headline::kept(sec)[i]
        < sec.children@.len() && raws_adjusted(
        h.children@[i],
        sec.children@[headline::kept(sec)[i]],
        src,
        seq![],
        if i == h.children@.len() - 1 {
            seq![]
        } else {
            seq![]
        },
    ) by {
        lemma_raws_ok_adjusted(h.children@[i], sec.children@[headline::kept(sec)[i]], src);
    }
    assert(h.raw@ =~= seq![] + decoded(src.subrange(sec.start as int, headline::own_end(sec)))
        + if h.children@.len() == 0 {
        seq![]
    } else {
        seq![]
    });
}

/// `fields_ok` reads neither `raw` nor `children`.
pub proof fn lemma_fields_ok_same(a: Headline, b: Headline, sec: SyntaxNode, src: Seq<u8>, cfg: Seq<(Seq<Seq<char>>, Seq<Seq<char>>)>)
    requires
        a.level == b.level,
        a.todo_state == b.todo_state,
        a.title == b.title,
        a.tags == b.tags,
        a.scheduled == b.scheduled,
        a.deadline == b.deadline,
        a.closed == b.closed,
        a.properties == b.properties,
        a.drawers == b.drawers,
        a.clocks == b.clocks,
        a.links == b.links,
        a.span == b.span,
        headline::fields_ok(a, sec, src, cfg),
    ensures
        headline::fields_ok(b, sec, src, cfg),
{
    assert(a.tags@ == b.tags@);
    assert(a.drawers@ == b.drawers@);
    assert(a.clocks@ == b.clocks@);
    assert(a.links@ == b.links@);
    assert(a.properties@ == b.properties@);
    assert(a.title@ == b.title@);
}

/// Append `tail` to the last region `h` emits (its deepest last
/// descendant's `raw`).
fn absorb_trailing(h: &mut Headline, tail: &str)
    ensures
        forall|sec: SyntaxNode, src: Seq<u8>, cfg: Seq<(Seq<Seq<char>>, Seq<Seq<char>>)>|
            #![trigger headline::tree_ok(*final(h), sec, src, cfg)]
            headline::tree_ok(*old(h), sec, src, cfg) ==> headline::tree_ok(*final(h), sec, src, cfg),
        forall|sec: SyntaxNode, src: Seq<u8>, gap: Seq<char>|
            #![trigger raws_adjusted(*final(h), sec, src, gap, tail@)]
            raws_adjusted(*old(h), sec, src, gap, seq![]) ==> raws_adjusted(
                *final(h),
                sec,
                src,
                gap,
                tail@,
            ),
    decreases *old(h),
{
    if h.children.len() == 0 {
        h.raw.append(tail);
        proof {
            assert forall|sec: SyntaxNode, src: Seq<u8>, cfg: Seq<(Seq<Seq<char>>, Seq<Seq<char>>)>|
                #![trigger headline::tree_ok(*h, sec, src, cfg)]
                headline::tree_ok(*old(h), sec, src, cfg) implies headline::tree_ok(*h, sec, src, cfg) by {
                lemma_fields_ok_same(*old(h), *h, sec, src, cfg);
            }
            assert forall|sec: SyntaxNode, src: Seq<u8>, gap: Seq<char>|
                #![trigger raws_adjusted(*h, sec, src, gap, tail@)]
                raws_adjusted(*old(h), sec, src, gap, seq![]) implies raws_adjusted(*h, sec, src, gap, tail@) by {
                assert(h.raw@ =~= old(h).raw@ + tail@);
                assert(old(h).raw@ =~= gap + decoded(src.subrange(sec.start as int, headline::own_end(sec))) + seq![]);
            }
        }
    } else {
        let ghost before = h.children@;
        let mut c = h.children.pop().unwrap();
        let ghost c0 = c;
        assert(c0 == before.last());
        assert(decreases_to!(*old(h) => old(h).children@.last()));
        absorb_trailing(&mut c, tail);
        h.children.push(c);
        proof {
            let k = before.len() - 1;
            assert(h.children@ == before.update(k, c));
            assert forall|sec: SyntaxNode, src: Seq<u8>, cfg: Seq<(Seq<Seq<char>>, Seq<Seq<char>>)>|
                #![trigger headline::tree_ok(*h, sec, src, cfg)]
                headline::tree_ok(*old(h), sec, src, cfg) implies headline::tree_ok(*h, sec, src, cfg) by {
                lemma_fields_ok_same(*old(h), *h, sec, src, cfg);
                assert forall|i: int| 0 <= i < h.children@.len() implies 0 <= #[trigger] headline::kept(sec)[i]
                    < sec.children@.len() && headline::tree_ok(h.children@[i], sec.children@[headline::kept(sec)[i]], src, cfg) by {
                    if i == k {
                        assert(headline::tree_ok(c0, sec.children@[headline::kept(sec)[i]], src, cfg));
                    } else {
                        assert(h.children@[i] == before[i]);
                    }
                }
            }
            assert forall|sec: SyntaxNode, src: Seq<u8>, gap: Seq<char>|
                #![trigger raws_adjusted(*h, sec, src, gap, tail@)]
                raws_adjusted(*old(h), sec, src, gap, seq![]) implies raws_adjusted(*h, sec, src, gap, tail@) by {
                assert forall|i: int| 0 <= i < h.children@.len() implies 0 <= #[trigger] headline::kept(sec)[i]
                    < sec.children@.len() && raws_adjusted(
                    h.children@[i],
                    sec.children@[headline::kept(sec)[i]],
                    src,
                    seq![],
                    if i == h.children@.len() - 1 {
                        tail@
                    } else {
                        seq![]
                    },
                ) by {
                    if i == k {
                        assert(raws_adjusted(c0, sec.children@[headline::kept(sec)[i]], src, seq![], seq![]));
                    } else {
                        assert(h.children@[i] == before[i]);
                    }
                }
            }
        }
    }
}

fn is_todo_name(name: &String) -> (r: bool)
    ensures
        r == todo_name(name@),
{
    let b = name.as_str().as_bytes();
    let w1 = vec![84u8, 79, 68, 79];
    let w2 = vec![83u8, 69, 81, 95, 84, 79, 68, 79];
    let w3 = vec![84u8, 89, 80, 95, 84, 79, 68, 79];
    proof {
        assert(w1@ =~= seq![84u8, 79, 68, 79]);
        assert(w2@ =~= seq![83u8, 69, 81, 95, 84, 79, 68, 79]);
        assert(w3@ =~= seq![84u8, 89, 80, 95, 84, 79, 68, 79]);
        assert(b@.subrange(0, b@.len() as int) =~= b@);
    }
    crate::text::eq_ignore_case_range(b, 0, b.len(), w1.as_slice())
        || crate::text::eq_ignore_case_range(b, 0, b.len(), w2.as_slice())
        || crate::text::eq_ignore_case_range(b, 0, b.len(), w3.as_slice())
}

/// Copies of the directives of `ds` lying inside `[a, b]`.
fn directives_in(ds: &Vec<Directive>, xs: Ghost<Seq<(Seq<char>, Seq<char>, int, int)>>, a: usize, b: usize) -> (r: Vec<Directive>)
    requires
        directives_ok(ds@, xs@),
    ensures
        directives_ok(r@, directives_within(xs@, a as int, b as int)),
{
    let ghost pred = |x: (Seq<char>, Seq<char>, int, int)| x.2 >= a && x.3 <= b;
    let mut out: Vec<Directive> = Vec::new();
    let mut i: usize = 0;
    proof {
        assert(xs@.take(0).filter(pred) =~= seq![]);
    }
    while i < ds.len()
        invariant
            i <= ds@.len(),
            directives_ok(ds@, xs@),
            pred == (|x: (Seq<char>, Seq<char>, int, int)| x.2 >= a && x.3 <= b),
            directives_ok(out@, xs@.take(i as int).filter(pred)),
        decreases ds@.len() - i,
    {
        proof {
            assert(xs@.take(i as int).push(xs@[i as int]) =~= xs@.take(i + 1));
            xs@.take(i as int).lemma_filter_push(xs@[i as int], pred);
            assert(directive_ok(ds@[i as int], xs@[i as int]));
        }
        let d = &ds[i];
        if d.span.start >= a && d.span.end <= b {
            out.push(d.clone());
        }
        i = i + 1;
    }
    proof {
        assert(xs@.take(i as int) =~= xs@);
    }
    out
}

/// `d` is what [`analyze`] gives for the tree `root` of the source bytes
/// `src`: the TODO configuration from the file's TODO directives, one
/// headline per top-level section with a headline line (every field as the
/// section gives it, `raw` extended by the uncovered bytes before it and,
/// for the last one, the trailing bytes), and the preamble.
pub open spec fn analysis_of(d: Document, root: SyntaxNode, src: Seq<u8>) -> bool {
    &&& d.span.start == 0 && d.span.end == src.len()
    &&& d.todo_config@ == todo::config_from_values(todo_values(tree_directives(src, root)))
    &&& d.headlines@.len() == headline::kept(root).len()
    &&& forall|i: int| 0 <= i < d.headlines@.len() ==> {
        let j = #[trigger] headline::kept(root)[i];
        &&& 0 <= j < root.children@.len()
        &&& headline::tree_ok(d.headlines@[i], root.children@[j], src, d.todo_config@)
        &&& raws_adjusted(
            d.headlines@[i],
            root.children@[j],
            src,
            gap_text(src, root, j),
            if i == d.headlines@.len() - 1 {
                tail_text(src, root)
            } else {
                seq![]
            },
        )
    }
    &&& preamble_ok(d.preamble, root, src, tree_directives(src, root))
}

/// Analyze org source into a semantic [`Document`], given the syntax tree
/// of `source`. All returned data is owned and all spans index `source`.
///
/// TODO directives anywhere in the file configure the keywords; the
/// document's zeroth-section body becomes the preamble; each top-level
/// section with a headline line becomes a headline. Bytes the tree leaves
/// outside every retained region are never dropped: those before a section
/// are prepended to its headline's `raw`, and trailing ones are appended to
/// the last region emitted (or form the preamble when nothing else is
/// retained).
pub fn analyze(root: &SyntaxNode, source: &str) -> (r: Document)
    requires
        root.wf(source.spec_bytes().len() as int),
    ensures
        analysis_of(r, *root, source.spec_bytes()),
        crate::serializer::tiling_ok(*root, source.spec_bytes()) ==> crate::serializer::document_text(
            r,
        ) == source@,
{
    let src = source.as_bytes();
    let n = src.len();
    let ghost s = src@;
    let directives = collect_directives(root, source);
    let ghost dirs = tree_directives(s, *root);
    let mut values: Vec<&str> = Vec::new();
    let mut i: usize = 0;
    while i < directives.len()
        invariant
            i <= directives@.len(),
            directives_ok(directives@, dirs),
            values@.map_values(|v: &str| v.spec_bytes()) == todo_values(dirs.take(i as int)),
        decreases directives@.len() - i,
    {
        proof {
            assert(dirs.take(i + 1).drop_last() =~= dirs.take(i as int));
            assert(directive_ok(directives@[i as int], dirs[i as int]));
        }
        let ghost prev = values@;
        if is_todo_name(&directives[i].name) {
            values.push(directives[i].value.as_str());
            proof {
                assert(values@.map_values(|v: &str| v.spec_bytes()) =~= prev.map_values(
                    |v: &str| v.spec_bytes(),
                ).push(vstd::utf8::encode_utf8(dirs[i as int].1)));
            }
        }
        i = i + 1;
    }
    proof {
        assert(dirs.take(i as int) =~= dirs);
    }
    let todo_config = TodoConfig::from_directive_slice(values.as_slice());
    let mut pos: usize = 0;
    let mut preamble: Option<Preamble> = match root.child_by_field(FieldName::Body) {
        Some(body) => {
            proof {
                let k = choose|k: int| 0 <= k < root.children@.len() && root.children@[k] == *body;
                assert(root.children@[k].wf(n as int));
            }
            let end = body.end;
            let text = crate::text::substring(src, 0, end);
            let links = link::scan_links_bytes(vstd::slice::slice_subrange(src, 0, end), 0);
            let ds = directives_in(&directives, Ghost(dirs), 0, end);
            pos = end;
            Some(Preamble { text, span: 0..end, links, directives: ds })
        },
        None => None,
    };
    let mut headlines: Vec<Headline> = Vec::new();
    let mut j: usize = 0;
    while j < root.children.len()
        invariant
            j <= root.children@.len(),
            root.wf(n as int),
            n == s.len(),
            s == source.spec_bytes(),
            src@ == s,
            pos as int == pos_after(*root, j as int),
            pos <= n,
            headlines@.len() == headline::kept_upto(root.children@, j as int).len(),
            forall|i: int| 0 <= i < headlines@.len() ==> {
                let k = #[trigger] headline::kept_upto(root.children@, j as int)[i];
                &&& 0 <= k < root.children@.len()
                &&& headline::tree_ok(headlines@[i], root.children@[k], s, todo_config@)
                &&& raws_adjusted(headlines@[i], root.children@[k], s, gap_text(s, *root, k), seq![])
            },
        decreases root.children@.len() - j,
    {
        let c = &root.children[j];
        proof {
            assert(c.wf(n as int));
            headline::lemma_kept_upto(root.children@, j as int);
        }
        if c.field == Some(FieldName::Subsection) {
            match headline::section_headline(c, src, &todo_config) {
                Some(h0) => {
                    let mut h = h0;
                    proof {
                        lemma_raws_ok_adjusted(h0, *c, s);
                    }
                    if c.start > pos {
                        let mut nr = crate::text::substring(src, pos, c.start);
                        nr.append(h.raw.as_str());
                        h.raw = nr;
                    }
                    proof {
                        lemma_fields_ok_same(h0, h, *c, s, todo_config@);
                        assert(headline::tree_ok(h, *c, s, todo_config@));
                        let g = gap_text(s, *root, j as int);
                        assert(h.raw@ =~= g + h0.raw@);
                        assert(raws_adjusted(h, *c, s, g, seq![]));
                    }
                    if c.end > pos {
                        pos = c.end;
                    }
                    headlines.push(h);
                },
                None => {},
            }
        }
        proof {
            let prev = headline::kept_upto(root.children@, j as int);
            let now = headline::kept_upto(root.children@, j + 1);
            if headline::keeps(*c) {
                assert(now == prev.push(j as int));
            } else {
                assert(now =~= prev);
            }
        }
        j = j + 1;
    }
    if pos < n {
        let tail = crate::text::substring(src, pos, n);
        if headlines.len() > 0 {
            let ghost before = headlines@;
            let mut last = headlines.pop().unwrap();
            let ghost last0 = last;
            absorb_trailing(&mut last, tail.as_str());
            headlines.push(last);
            proof {
                assert(headlines@ == before.update(before.len() - 1, last));
            }
        } else {
            preamble = match preamble {
                Some(p) => {
                    let mut p = p;
                    p.text.append(tail.as_str());
                    p.span = p.span.start..n;
                    Some(p)
                },
                None => {
                    let links = link::scan_links_bytes(vstd::slice::slice_subrange(src, pos, n), pos);
                    let ds = directives_in(&directives, Ghost(dirs), pos, n);
                    Some(Preamble { text: tail, span: pos..n, links, directives: ds })
                },
            };
        }
    }
    let r = Document { headlines, todo_config, preamble, span: 0..n };
    proof {
        assert(analysis_of(r, *root, s));
        if crate::serializer::tiling_ok(*root, s) {
            vstd::utf8::encode_utf8_valid_utf8(source@);
            vstd::utf8::encode_utf8_decode_utf8(source@);
            crate::serializer::lemma_round_trip(r, *root, s);
        }
    }
    r
}

} // verus!
