//! Round-trip serializer: emits org text back from the semantic structs by
//! raw-region passthrough, never by re-rendering semantic fields.
//!
//! Each headline's own region (`raw`) is emitted, then its children,
//! recursively, in document order; a document emits its preamble first.
//! Because the preamble and the `raw` regions tile the analyzed source,
//! serializing an analyzed document gives back the source byte for byte.
use vstd::prelude::*;
use vstd::string::{StringExecFns, StringSliceAdditionalSpecFns};

use crate::semantic::headline::{keeps, kept, kept_upto, lemma_kept_upto, own_end, Headline};
use crate::semantic::tree::{FieldName, SyntaxNode};
use crate::semantic::{
    analysis_of, body_end, final_pos, gap_text, pos_after, raws_adjusted, tail_text, Document,
};
use crate::text::decoded;
use vstd::utf8::{decode_utf8, is_continuation_byte, valid_utf8};

verus! {

/// The text a headline emits: its own region, then each child's text.
pub open spec fn emit_text(h: Headline) -> Seq<char>
    decreases h, 1int, 0int,
{
    h.raw@ + emit_children(h, h.children@.len() as int)
}

/// The text of the first `k` children of `h`, in order.
pub open spec fn emit_children(h: Headline, k: int) -> Seq<char>
    decreases h, 0int, k,
{
    if k <= 0 || k > h.children@.len() {
        seq![]
    } else {
        emit_children(h, k - 1) + emit_text(h.children@[k - 1])
    }
}

/// The text of the first `k` headlines of `hs`, in order.
pub open spec fn emit_list(hs: Seq<Headline>, k: int) -> Seq<char>
    decreases k,
{
    if k <= 0 || k > hs.len() {
        seq![]
    } else {
        emit_list(hs, k - 1) + emit_text(hs[k - 1])
    }
}

/// The text a whole document emits: preamble, then every headline.
pub open spec fn document_text(d: Document) -> Seq<char> {
    (match d.preamble {
        Some(p) => p.text@,
        None => seq![],
    }) + emit_list(d.headlines@, d.headlines@.len() as int)
}

/// Recursive raw-region emission: own region first, then children in
/// document order.
fn emit(headline: &Headline, out: &mut String)
    ensures
        final(out)@ == old(out)@ + emit_text(*headline),
    decreases headline,
{
    out.append(headline.raw.as_str());
    let mut i: usize = 0;
    while i < headline.children.len()
        invariant
            i <= headline.children@.len(),
            out@ == old(out)@ + headline.raw@ + emit_children(*headline, i as int),
        decreases headline.children@.len() - i,
    {
        emit(&headline.children[i], out);
        proof {
            assert(old(out)@ + headline.raw@ + emit_children(*headline, i + 1) =~= old(out)@
                + headline.raw@ + emit_children(*headline, i as int) + emit_text(
                headline.children@[i as int],
            ));
        }
        i = i + 1;
    }
}

/// Serialize headlines back to org text by raw-region passthrough: each
/// headline's own region, then its children, recursively, in order.
/// Infallible and pure.
pub fn serialize(headlines: &[Headline]) -> (r: String)
    ensures
        r@ == emit_list(headlines@, headlines@.len() as int),
{
    let mut out = String::new();
    let mut i: usize = 0;
    while i < headlines.len()
        invariant
            i <= headlines@.len(),
            out@ == emit_list(headlines@, i as int),
        decreases headlines@.len() - i,
    {
        emit(&headlines[i], &mut out);
        i = i + 1;
    }
    out
}

/// Serialize a whole [`Document`] back to org text: the preamble text, then
/// every headline via [`serialize`]. For a document [`crate::semantic::analyze`]
/// produced, this is the analyzed source byte for byte.
pub fn serialize_document(document: &Document) -> (r: String)
    ensures
        r@ == document_text(*document),
{
    let mut out = String::new();
    match &document.preamble {
        Some(p) => out.append(p.text.as_str()),
        None => {},
    }
    let ghost start = out@;
    let mut i: usize = 0;
    while i < document.headlines.len()
        invariant
            i <= document.headlines@.len(),
            out@ == start + emit_list(document.headlines@, i as int),
        decreases document.headlines@.len() - i,
    {
        emit(&document.headlines[i], &mut out);
        proof {
            assert(start + emit_list(document.headlines@, i + 1) =~= start + emit_list(
                document.headlines@,
                i as int,
            ) + emit_text(document.headlines@[i as int]));
        }
        i = i + 1;
    }
    out
}

// ---------------------------------------------------------------------------
// The round trip: serializing an analyzed document gives back its source.
// ---------------------------------------------------------------------------

/// `i` is a character boundary of `s`: its end, or a byte that does not
/// continue a multi-byte character.
pub open spec fn boundary(s: Seq<u8>, i: int) -> bool {
    i == s.len() || (0 <= i < s.len() && !is_continuation_byte(s[i]))
}

/// Every node of the tree under `n` starts and ends on a character boundary.
pub open spec fn bounds_ok(n: SyntaxNode, s: Seq<u8>) -> bool
    decreases n,
{
    &&& boundary(s, n.start as int)
    &&& boundary(s, n.end as int)
    &&& forall|i: int| 0 <= i < n.children@.len() ==> bounds_ok(#[trigger] n.children@[i], s)
}

/// The headline sections nested in `x` tile the rest of it: the first starts
/// where `x`'s own region ends, each starts where the previous ends, the
/// last ends where `x` ends, and so on recursively.
pub open spec fn nested_ok(x: SyntaxNode) -> bool
    decreases x,
{
    let k = kept(x);
    &&& (k.len() == 0 ==> own_end(x) == x.end)
    &&& (k.len() > 0 ==> 0 <= k[0] < x.children@.len() && x.children@[k[0]].start == own_end(x))
    &&& (k.len() > 0 ==> 0 <= k[k.len() - 1] < x.children@.len() && x.children@[k[k.len() - 1]].end == x.end)
    &&& forall|i: int, i2: int|
        0 <= i && i2 == i + 1 && i2 < k.len() ==> 0 <= #[trigger] k[i] < x.children@.len() && 0
            <= #[trigger] k[i2] < x.children@.len() && x.children@[k[i]].end == x.children@[k[i2]].start
    &&& forall|j: int|
        0 <= j < x.children@.len() && keeps(#[trigger] x.children@[j]) ==> nested_ok(x.children@[j])
}

/// What the tree must satisfy for the analyzed document to tile its source:
/// ranges inside the source and on character boundaries, top-level nodes in
/// order without overlap, the preamble body before every headline section,
/// and nested headline sections tiling their parents.
#[verifier::opaque]
pub open spec fn tiling_ok(root: SyntaxNode, s: Seq<u8>) -> bool {
    &&& root.wf(s.len() as int)
    &&& bounds_ok(root, s)
    &&& forall|i: int, j: int|
        0 <= i < j < root.children@.len() ==> (#[trigger] root.children@[i]).end <= (
        #[trigger] root.children@[j]).start
    &&& forall|j: int|
        0 <= j < root.children@.len() && keeps(#[trigger] root.children@[j]) ==> body_end(root)
            <= root.children@[j].start && nested_ok(root.children@[j])
}

/// Exec form of [`boundary`].
fn boundary_at(s: &[u8], i: usize) -> (r: bool)
    ensures
        r == boundary(s@, i as int),
{
    i == s.len() || (i < s.len() && !(0x80 <= s[i] && s[i] <= 0xbf))
}

/// Exec form of [`bounds_ok`].
fn bounds_check(n: &SyntaxNode, s: &[u8]) -> (r: bool)
    ensures
        r == bounds_ok(*n, s@),
    decreases n,
{
    if !(boundary_at(s, n.start) && boundary_at(s, n.end)) {
        return false;
    }
    let mut i: usize = 0;
    while i < n.children.len()
        invariant
            i <= n.children@.len(),
            forall|j: int| 0 <= j < i ==> bounds_ok(#[trigger] n.children@[j], s@),
        decreases n.children@.len() - i,
    {
        proof {
            assert(decreases_to!(*n => n.children@));
            assert(decreases_to!(n.children@ => n.children@[i as int]));
        }
        if !bounds_check(&n.children[i], s) {
            return false;
        }
        i = i + 1;
    }
    true
}

/// Exec form of [`keeps`].
fn keeps_check(c: &SyntaxNode) -> (r: bool)
    ensures
        r == keeps(*c),
{
    match c.field {
        Some(FieldName::Subsection) => c.child_by_field(FieldName::Headline).is_some(),
        _ => false,
    }
}

/// The sections at indices `k` of `cs` follow on from one another, the
/// first starting at `own`.
pub open spec fn joined(cs: Seq<SyntaxNode>, k: Seq<int>, own: int) -> bool {
    &&& (k.len() > 0 ==> cs[k[0]].start == own)
    &&& forall|i: int, i2: int|
        0 <= i && i2 == i + 1 && i2 < k.len() ==> cs[#[trigger] k[i]].end == cs[#[trigger] k[i2]].start
}

/// The headline sections among the first `j` children of `x` are nested
/// correctly themselves.
#[verifier::opaque]
pub open spec fn kids_ok(x: SyntaxNode, j: int) -> bool {
    forall|q: int| 0 <= q < j && keeps(#[trigger] x.children@[q]) ==> nested_ok(x.children@[q])
}

proof fn lemma_joined_push(cs: Seq<SyntaxNode>, k: Seq<int>, own: int, j: int)
    ensures
        joined(cs, k.push(j), own) == (joined(cs, k, own) && if k.len() == 0 {
            cs[j].start == own
        } else {
            cs[k.last()].end == cs[j].start
        }),
{
    let k2 = k.push(j);
    assert(k2[0] == if k.len() > 0 { k[0] } else { j });
    if joined(cs, k2, own) {
        assert forall|i: int, i2: int| 0 <= i && i2 == i + 1 && i2 < k.len() implies cs[#[trigger] k[i]].end
            == cs[#[trigger] k[i2]].start by {
            assert(k2[i] == k[i] && k2[i2] == k[i2]);
        }
        if k.len() > 0 {
            assert(k2[k.len() - 1] == k.last() && k2[k.len() as int] == j);
        }
    }
    if joined(cs, k, own) && (if k.len() == 0 {
        cs[j].start == own
    } else {
        cs[k.last()].end == cs[j].start
    }) {
        assert forall|i: int, i2: int| 0 <= i && i2 == i + 1 && i2 < k2.len() implies cs[#[trigger] k2[i]].end
            == cs[#[trigger] k2[i2]].start by {
            assert(k2[i] == k[i]);
            if i2 < k.len() {
                assert(k2[i2] == k[i2]);
            }
        }
    }
}

proof fn lemma_kids_step(x: SyntaxNode, j: int)
    requires
        0 <= j < x.children@.len(),
    ensures
        kids_ok(x, j + 1) == (kids_ok(x, j) && (keeps(x.children@[j]) ==> nested_ok(
            x.children@[j],
        ))),
{
    reveal(kids_ok);
}

proof fn lemma_nested_parts(x: SyntaxNode)
    ensures
        nested_ok(x) == (joined(x.children@, kept(x), own_end(x)) && kids_ok(
            x,
            x.children@.len() as int,
        ) && (if kept(x).len() == 0 {
            own_end(x) == x.end
        } else {
            x.children@[kept(x).last()].end == x.end
        })),
{
    reveal(kids_ok);
    let cs = x.children@;
    let k = kept(x);
    lemma_kept_upto(cs, cs.len() as int);
    if k.len() > 0 {
        assert(0 <= k[k.len() - 1] < cs.len());
        assert(0 <= k[0] < cs.len());
    }
    if nested_ok(x) {
        assert forall|i: int, i2: int| 0 <= i && i2 == i + 1 && i2 < k.len() implies cs[#[trigger] k[i]].end
            == cs[#[trigger] k[i2]].start by {
            assert(0 <= k[i] < cs.len());
        }
        assert forall|q: int| 0 <= q < cs.len() && keeps(#[trigger] x.children@[q]) implies nested_ok(
            x.children@[q],
        ) by {
            assert(keeps(cs[q]));
        }
    }
    if joined(cs, k, own_end(x)) && kids_ok(x, cs.len() as int) {
        assert forall|i: int, i2: int| 0 <= i && i2 == i + 1 && i2 < k.len() implies 0
            <= #[trigger] k[i] < cs.len() && 0 <= #[trigger] k[i2] < cs.len() && cs[k[i]].end
            == cs[k[i2]].start by {
            assert(cs[k[i]].end == cs[k[i2]].start);
        }
    }
}

/// Exec form of [`nested_ok`].
fn nested_check(x: &SyntaxNode) -> (r: bool)
    ensures
        r == nested_ok(*x),
    decreases x,
{
    let own = crate::semantic::headline::own_end_of(x);
    let mut ok = true;
    let mut last: Option<usize> = None;
    let mut j: usize = 0;
    proof {
        reveal(kids_ok);
    }
    while j < x.children.len()
        invariant
            j <= x.children@.len(),
            own as int == own_end(*x),
            ok == (joined(x.children@, kept_upto(x.children@, j as int), own as int) && kids_ok(
                *x,
                j as int,
            )),
            match last {
                None => kept_upto(x.children@, j as int).len() == 0,
                Some(p) => kept_upto(x.children@, j as int).len() > 0 && p as int == kept_upto(
                    x.children@,
                    j as int,
                ).last() && p < x.children@.len(),
            },
        decreases x.children@.len() - j,
    {
        proof {
            lemma_kids_step(*x, j as int);
            assert(decreases_to!(*x => x.children@));
            assert(decreases_to!(x.children@ => x.children@[j as int]));
        }
        let c = &x.children[j];
        if keeps_check(c) {
            let joins = match last {
                None => c.start == own,
                Some(p) => x.children[p].end == c.start,
            };
            let inner = nested_check(c);
            ok = ok && inner && joins;
            proof {
                lemma_joined_push(x.children@, kept_upto(x.children@, j as int), own as int, j as int);
                assert(kept_upto(x.children@, j + 1) == kept_upto(x.children@, j as int).push(
                    j as int,
                ));
            }
            last = Some(j);
        } else {
            proof {
                assert(kept_upto(x.children@, j + 1) == kept_upto(x.children@, j as int));
            }
        }
        j = j + 1;
    }
    let closes = match last {
        None => own == x.end,
        Some(p) => x.children[p].end == x.end,
    };
    proof {
        lemma_nested_parts(*x);
    }
    ok && closes
}

/// Whether the tree `root` tiles `source` as the round trip needs (see
/// [`tiling_ok`]): when it does, [`crate::semantic::analyze`] followed by
/// [`serialize_document`] gives `source` back.
pub fn tiles_source(root: &SyntaxNode, source: &str) -> (r: bool)
    ensures
        r == tiling_ok(*root, source.spec_bytes()),
{
    let s = source.as_bytes();
    if !root.is_well_formed(s.len()) || !bounds_check(root, s) {
        proof {
            reveal(tiling_ok);
        }
        return false;
    }
    let be: usize = match root.child_by_field(FieldName::Body) {
        Some(b) => b.end,
        None => 0,
    };
    let cs = &root.children;
    let mut j: usize = 0;
    while j < cs.len()
        invariant
            j <= cs@.len(),
            cs@ == root.children@,
            root.wf(s@.len() as int),
            be as int == body_end(*root),
            forall|a: int, b: int| 0 <= a < b < j ==> (#[trigger] cs@[a]).end <= (#[trigger] cs@[b]).start,
            forall|q: int|
                0 <= q < j && keeps(#[trigger] cs@[q]) ==> be <= cs@[q].start && nested_ok(cs@[q]),
        decreases cs@.len() - j,
    {
        if j > 0 && cs[j - 1].end > cs[j].start {
            proof {
                reveal(tiling_ok);
                assert(cs@[j - 1].end > cs@[j as int].start);
            }
            return false;
        }
        if keeps_check(&cs[j]) && !(be <= cs[j].start && nested_check(&cs[j])) {
            proof {
                reveal(tiling_ok);
                assert(keeps(root.children@[j as int]));
            }
            return false;
        }
        proof {
            if j > 0 {
                assert(root.children@[j - 1].wf(s@.len() as int));
                assert(cs@[j - 1].start <= cs@[j - 1].end);
            }
            assert forall|a: int, b: int| 0 <= a < b < j + 1 implies (#[trigger] cs@[a]).end <= (
            #[trigger] cs@[b]).start by {
                if b == j && a < j - 1 {
                    assert(cs@[a].end <= cs@[j - 1].start);
                }
            }
        }
        j = j + 1;
    }
    proof {
        reveal(tiling_ok);
    }
    true
}

/// What [`tiling_ok`] says of the top-level child `j`: it lies on
/// character boundaries after the preamble body and before every later
/// child, and a headline section among them nests its own sections without
/// gaps (so [`crate::semantic::headline::lemma_built_section_shape`] orders
/// its children).
pub proof fn lemma_tiling_child(root: SyntaxNode, s: Seq<u8>, j: int)
    requires
        tiling_ok(root, s),
        0 <= j < root.children@.len(),
    ensures
        root.wf(s.len() as int),
        root.children@[j].wf(s.len() as int),
        bounds_ok(root.children@[j], s),
        boundary(s, root.children@[j].start as int),
        boundary(s, root.children@[j].end as int),
        root.children@[j].start <= root.children@[j].end <= s.len(),
        keeps(root.children@[j]) ==> body_end(root) <= root.children@[j].start && nested_ok(
            root.children@[j],
        ),
        forall|q: int| j < q < root.children@.len() ==> root.children@[j].end <= #[trigger] root.children@[q].start,
{
    reveal(tiling_ok);
    assert(bounds_ok(root.children@[j], s));
    assert(root.children@[j].wf(s.len() as int));
    assert forall|q: int| j < q < root.children@.len() implies root.children@[j].end <= #[trigger] root.children@[q].start by {
        assert(root.children@[j].end <= root.children@[q].start);
    }
}

/// What [`tiling_ok`] says of the preamble body.
proof fn lemma_tiling_body(root: SyntaxNode, s: Seq<u8>)
    requires
        valid_utf8(s),
        tiling_ok(root, s),
    ensures
        0 <= body_end(root) <= s.len(),
        boundary(s, body_end(root)),
{
    reveal(tiling_ok);
    let cs = root.children@;
    match crate::semantic::tree::field_child(root, crate::semantic::tree::FieldName::Body) {
        Some(b) => {
            let k = crate::semantic::tree::first_with_field(cs, crate::semantic::tree::FieldName::Body, 0);
            crate::semantic::tree::lemma_first_with_field(cs, crate::semantic::tree::FieldName::Body, 0);
            assert(bounds_ok(cs[k], s));
            assert(cs[k].wf(s.len() as int));
        },
        None => {
            if s.len() > 0 {
                vstd::utf8::is_char_boundary_start_end_of_seq(s);
                vstd::utf8::is_char_boundary_iff_not_is_continuation_byte(s, 0);
            }
        },
    }
}

/// The `raw` regions of the analyzed headlines (the part of
/// [`analysis_of`] the round trip rests on).
#[verifier::opaque]
pub open spec fn raws_of(d: Document, root: SyntaxNode, s: Seq<u8>) -> bool {
    &&& d.headlines@.len() == kept(root).len()
    &&& forall|i: int| 0 <= i < d.headlines@.len() ==> {
        let j = #[trigger] kept(root)[i];
        &&& 0 <= j < root.children@.len()
        &&& raws_adjusted(
            d.headlines@[i],
            root.children@[j],
            s,
            gap_text(s, root, j),
            if i == d.headlines@.len() - 1 {
                tail_text(s, root)
            } else {
                seq![]
            },
        )
    }
}

proof fn lemma_raws_of(d: Document, root: SyntaxNode, s: Seq<u8>)
    requires
        analysis_of(d, root, s),
    ensures
        raws_of(d, root, s),
{
    reveal(raws_of);
}

proof fn lemma_raws_of_at(d: Document, root: SyntaxNode, s: Seq<u8>, i: int)
    requires
        raws_of(d, root, s),
        0 <= i < d.headlines@.len(),
    ensures
        d.headlines@.len() == kept(root).len(),
        0 <= kept(root)[i] < root.children@.len(),
        raws_adjusted(
            d.headlines@[i],
            root.children@[kept(root)[i]],
            s,
            gap_text(s, root, kept(root)[i]),
            if i == d.headlines@.len() - 1 {
                tail_text(s, root)
            } else {
                seq![]
            },
        ),
{
    reveal(raws_of);
}

/// Splitting valid UTF-8 at character boundaries gives valid UTF-8 whose
/// decodings concatenate.
pub proof fn lemma_decode_split(s: Seq<u8>, a: int, b: int, c: int)
    requires
        valid_utf8(s),
        0 <= a <= b <= c <= s.len(),
        boundary(s, a),
        boundary(s, b),
        boundary(s, c),
    ensures
        valid_utf8(s.subrange(a, b)),
        valid_utf8(s.subrange(a, c)),
        decoded(s.subrange(a, c)) == decoded(s.subrange(a, b)) + decoded(s.subrange(b, c)),
{
    reveal(decoded);
    lemma_valid_sub(s, a, c);
    lemma_valid_sub(s, a, b);
    lemma_valid_sub(s, b, c);
    let u = s.subrange(a, c);
    vstd::utf8::is_char_boundary_start_end_of_seq(u);
    if b < c {
        vstd::utf8::is_char_boundary_iff_not_is_continuation_byte(u, b - a);
    }
    vstd::utf8::decode_utf8_split(u, b - a);
    assert(u.subrange(0, b - a) =~= s.subrange(a, b));
    assert(u.subrange(b - a, u.len() as int) =~= s.subrange(b, c));
}

/// A range between character boundaries of valid UTF-8 is valid UTF-8.
pub proof fn lemma_valid_sub(s: Seq<u8>, a: int, b: int)
    requires
        valid_utf8(s),
        0 <= a <= b <= s.len(),
        boundary(s, a),
        boundary(s, b),
    ensures
        valid_utf8(s.subrange(a, b)),
{
    vstd::utf8::is_char_boundary_start_end_of_seq(s);
    if a < s.len() {
        vstd::utf8::is_char_boundary_iff_not_is_continuation_byte(s, a);
    }
    vstd::utf8::valid_utf8_split(s, a);
    let t = s.subrange(a, s.len() as int);
    vstd::utf8::is_char_boundary_start_end_of_seq(t);
    if b < s.len() {
        assert(t[b - a] == s[b]);
        vstd::utf8::is_char_boundary_iff_not_is_continuation_byte(t, b - a);
    }
    vstd::utf8::valid_utf8_split(t, b - a);
    assert(t.subrange(0, b - a) =~= s.subrange(a, b));
}

proof fn lemma_bounds_child(n: SyntaxNode, s: Seq<u8>, len: int, i: int)
    requires
        n.wf(len),
        bounds_ok(n, s),
        0 <= i < n.children@.len(),
    ensures
        n.children@[i].wf(len),
        bounds_ok(n.children@[i], s),
        n.start <= n.children@[i].start <= n.children@[i].end <= n.end,
{
}

/// The premises under which a headline's text covers its section.
#[verifier::opaque]
pub open spec fn section_facts(h: Headline, x: SyntaxNode, s: Seq<u8>, gap: Seq<char>, tail: Seq<char>) -> bool {
    &&& valid_utf8(s)
    &&& x.wf(s.len() as int)
    &&& bounds_ok(x, s)
    &&& nested_ok(x)
    &&& raws_adjusted(h, x, s, gap, tail)
}

/// What [`section_facts`] says of the headline's own region.
#[verifier::rlimit(100)]
proof fn lemma_own_facts(h: Headline, x: SyntaxNode, s: Seq<u8>, gap: Seq<char>, tail: Seq<char>)
    requires
        section_facts(h, x, s, gap, tail),
    ensures
        valid_utf8(s),
        x.start <= own_end(x) <= x.end <= s.len(),
        boundary(s, x.start as int),
        boundary(s, x.end as int),
        boundary(s, own_end(x)),
        h.children@.len() == kept(x).len(),
        h.raw@ == gap + decoded(s.subrange(x.start as int, own_end(x))) + if h.children@.len() == 0 {
            tail
        } else {
            seq![]
        },
        h.children@.len() == 0 ==> own_end(x) == x.end,
        h.children@.len() > 0 ==> 0 <= kept(x)[0] < x.children@.len() && x.children@[kept(x)[0]].start == own_end(x),
        h.children@.len() > 0 ==> 0 <= kept(x)[h.children@.len() - 1] < x.children@.len()
            && x.children@[kept(x)[h.children@.len() - 1]].end == x.end,
{
    reveal(section_facts);
    lemma_kept_upto(x.children@, x.children@.len() as int);
    let k = kept(x);
    if k.len() > 0 {
        lemma_bounds_child(x, s, s.len() as int, k[0]);
    }
}

/// What [`section_facts`] says of the `i`-th child headline.
#[verifier::rlimit(100)]
proof fn lemma_child_facts(h: Headline, x: SyntaxNode, s: Seq<u8>, gap: Seq<char>, tail: Seq<char>, i: int)
    requires
        section_facts(h, x, s, gap, tail),
        0 <= i < h.children@.len(),
    ensures
        0 <= kept(x)[i] < x.children@.len(),
        section_facts(
            h.children@[i],
            x.children@[kept(x)[i]],
            s,
            seq![],
            if i == h.children@.len() - 1 {
                tail
            } else {
                seq![]
            },
        ),
        x.start <= x.children@[kept(x)[i]].start <= x.children@[kept(x)[i]].end <= x.end,
        boundary(s, x.children@[kept(x)[i]].end as int),
        i >= 1 ==> 0 <= kept(x)[i - 1] < x.children@.len() && x.children@[kept(x)[i - 1]].end
            == x.children@[kept(x)[i]].start,
{
    reveal(section_facts);
    lemma_kept_upto(x.children@, x.children@.len() as int);
    let k = kept(x);
    let c = x.children@[k[i]];
    lemma_bounds_child(x, s, s.len() as int, k[i]);
    assert(keeps(c));
    assert(nested_ok(c));
    let t = if i == h.children@.len() - 1 {
        tail
    } else {
        seq![]
    };
    assert(raws_adjusted(h.children@[i], c, s, seq![], t));
    if i >= 1 {
        assert(0 <= i - 1 < k.len() - 1);
        assert(x.children@[k[i - 1]].end == x.children@[k[(i - 1) + 1]].start);
    }
}

/// The text a headline emits covers its section, between `gap` and `tail`.
pub proof fn lemma_section_emit(h: Headline, x: SyntaxNode, s: Seq<u8>, gap: Seq<char>, tail: Seq<char>)
    requires
        section_facts(h, x, s, gap, tail),
    ensures
        emit_text(h) == gap + decoded(s.subrange(x.start as int, x.end as int)) + tail,
    decreases x, 1int, 0int,
{
    lemma_own_facts(h, x, s, gap, tail);
    let m = h.children@.len() as int;
    let own = own_end(x);
    if m == 0 {
        assert(emit_children(h, 0) =~= seq![]);
        assert(emit_text(h) =~= h.raw@ + seq![]);
    } else {
        lemma_children_emit(h, x, s, gap, tail, m);
        lemma_decode_split(s, x.start as int, own, x.end as int);
        assert(emit_text(h) =~= gap + decoded(s.subrange(x.start as int, x.end as int)) + tail);
    }
}

/// The first `i` children of `h` emit its section from the end of its own
/// region through the end of child `i - 1` (with `tail` after the last).
pub proof fn lemma_children_emit(h: Headline, x: SyntaxNode, s: Seq<u8>, gap: Seq<char>, tail: Seq<char>, i: int)
    requires
        section_facts(h, x, s, gap, tail),
        1 <= i <= h.children@.len(),
    ensures
        0 <= kept(x)[i - 1] < x.children@.len(),
        own_end(x) <= x.children@[kept(x)[i - 1]].end,
        emit_children(h, i) == decoded(s.subrange(own_end(x), x.children@[kept(x)[i - 1]].end as int))
            + if i == h.children@.len() {
            tail
        } else {
            seq![]
        },
    decreases x, 0int, i,
{
    let m = h.children@.len() as int;
    lemma_own_facts(h, x, s, gap, tail);
    lemma_child_facts(h, x, s, gap, tail, i - 1);
    let k = kept(x);
    let own = own_end(x);
    let ci = x.children@[k[i - 1]];
    let t = if i - 1 == m - 1 {
        tail
    } else {
        seq![]
    };
    lemma_section_emit(h.children@[i - 1], ci, s, seq![], t);
    assert(emit_children(h, i) == emit_children(h, i - 1) + emit_text(h.children@[i - 1]));
    if i == 1 {
        assert(emit_children(h, 0) =~= seq![]);
        assert(ci.start == own);
        assert(emit_children(h, i) =~= decoded(s.subrange(own, ci.end as int)) + t);
    } else {
        lemma_children_emit(h, x, s, gap, tail, i - 1);
        lemma_child_facts(h, x, s, gap, tail, i - 2);
        let prev_end = x.children@[k[i - 2]].end as int;
        lemma_decode_split(s, own, prev_end, ci.end as int);
        assert(emit_children(h, i) =~= decoded(s.subrange(own, ci.end as int)) + t);
    }
}

proof fn lemma_decoded_empty(s: Seq<u8>, a: int)
    requires
        0 <= a <= s.len(),
    ensures
        decoded(s.subrange(a, a)) == Seq::<char>::empty(),
{
    reveal(decoded);
    let e = s.subrange(a, a);
    assert(e =~= Seq::<u8>::empty());
    assert(vstd::utf8::valid_utf8(e)) by {
        reveal_with_fuel(vstd::utf8::valid_utf8, 1);
    }
    assert(vstd::utf8::decode_utf8(e) =~= Seq::<char>::empty()) by {
        reveal_with_fuel(vstd::utf8::decode_utf8, 1);
    }
}

/// Later prefixes of the kept children extend earlier ones.
proof fn lemma_kept_prefix(cs: Seq<SyntaxNode>, j: int, n: int)
    requires
        0 <= j <= n <= cs.len(),
    ensures
        kept_upto(cs, j).len() <= kept_upto(cs, n).len(),
        forall|i: int| 0 <= i < kept_upto(cs, j).len() ==> #[trigger] kept_upto(cs, n)[i] == kept_upto(cs, j)[i],
        j < n && keeps(cs[j]) ==> kept_upto(cs, n)[kept_upto(cs, j).len() as int] == j,
    decreases n - j,
{
    if j < n {
        lemma_kept_prefix(cs, j + 1, n);
        let a = kept_upto(cs, j);
        let b = kept_upto(cs, j + 1);
        if keeps(cs[j]) {
            assert(b == a.push(j));
            assert(b[a.len() as int] == j);
        } else {
            assert(b =~= a);
        }
        assert forall|i: int| 0 <= i < a.len() implies #[trigger] kept_upto(cs, n)[i] == a[i] by {
            assert(kept_upto(cs, n)[i] == b[i]);
        }
    }
}

/// The coverage cursor stays within the source, on a character boundary,
/// and before every later headline section.
#[verifier::rlimit(100)]
proof fn lemma_pos_bounds(root: SyntaxNode, s: Seq<u8>, j: int)
    requires
        valid_utf8(s),
        tiling_ok(root, s),
        0 <= j <= root.children@.len(),
    ensures
        body_end(root) <= pos_after(root, j) <= s.len(),
        boundary(s, pos_after(root, j)),
        forall|q: int|
            j <= q < root.children@.len() && keeps(#[trigger] root.children@[q]) ==> pos_after(root, j)
                <= root.children@[q].start,
    decreases j,
{
    let cs = root.children@;
    lemma_tiling_body(root, s);
    if j == 0 {
        assert forall|q: int|
            0 <= q < cs.len() && keeps(#[trigger] cs[q]) implies pos_after(root, 0) <= cs[q].start by {
            lemma_tiling_child(root, s, q);
        }
    } else {
        lemma_pos_bounds(root, s, j - 1);
        lemma_tiling_child(root, s, j - 1);
        assert forall|q: int|
            j <= q < cs.len() && keeps(#[trigger] cs[q]) implies pos_after(root, j) <= cs[q].start by {
            assert(cs[j - 1].end <= cs[q].start);
        }
    }
}

/// The headlines of the first `j` top-level children emit the source from
/// the preamble body's end to the cursor (plus the trailing bytes once the
/// last headline is reached).
#[verifier::rlimit(100)]
proof fn lemma_top_prefix(d: Document, root: SyntaxNode, s: Seq<u8>, j: int)
    requires
        valid_utf8(s),
        tiling_ok(root, s),
        raws_of(d, root, s),
        0 <= j <= root.children@.len(),
    ensures
        kept_upto(root.children@, j).len() <= d.headlines@.len(),
        emit_list(d.headlines@, kept_upto(root.children@, j).len() as int) == decoded(
            s.subrange(body_end(root), pos_after(root, j)),
        ) + if kept_upto(root.children@, j).len() == d.headlines@.len() && d.headlines@.len() > 0 {
            tail_text(s, root)
        } else {
            seq![]
        },
    decreases j,
{
    let cs = root.children@;
    let n = cs.len() as int;
    let m = d.headlines@.len() as int;
    lemma_kept_prefix(cs, j, n);
    lemma_pos_bounds(root, s, j);
    assert(m == kept_upto(cs, n).len()) by {
        reveal(raws_of);
    }
    if j == 0 {
        assert(emit_list(d.headlines@, 0) =~= seq![]);
        lemma_decoded_empty(s, body_end(root));
    } else {
        lemma_top_prefix(d, root, s, j - 1);
        lemma_pos_bounds(root, s, j - 1);
        lemma_kept_prefix(cs, j - 1, n);
        let c = cs[j - 1];
        let i = kept_upto(cs, j - 1).len() as int;
        let p = pos_after(root, j - 1);
        if keeps(c) {
            assert(kept_upto(cs, j) == kept_upto(cs, j - 1).push(j - 1));
            assert(kept_upto(cs, n)[i] == j - 1);
            lemma_top_step(d, root, s, j, i);
        } else {
            assert(kept_upto(cs, j) =~= kept_upto(cs, j - 1));
        }
    }
}

/// Adding the headline of the kept top-level child `j - 1` (the `i`-th
/// headline) extends the emitted text up to that child's end.
#[verifier::rlimit(100)]
proof fn lemma_top_step(d: Document, root: SyntaxNode, s: Seq<u8>, j: int, i: int)
    requires
        valid_utf8(s),
        tiling_ok(root, s),
        raws_of(d, root, s),
        1 <= j <= root.children@.len(),
        keeps(root.children@[j - 1]),
        0 <= i < d.headlines@.len(),
        kept(root)[i] == j - 1,
        emit_list(d.headlines@, i) == decoded(s.subrange(body_end(root), pos_after(root, j - 1))),
    ensures
        emit_list(d.headlines@, i + 1) == decoded(s.subrange(body_end(root), root.children@[j - 1].end as int))
            + if i == d.headlines@.len() - 1 {
            tail_text(s, root)
        } else {
            seq![]
        },
        pos_after(root, j) == root.children@[j - 1].end,
{
    let cs = root.children@;
    let c = cs[j - 1];
    let m = d.headlines@.len() as int;
    let p = pos_after(root, j - 1);
    lemma_pos_bounds(root, s, j - 1);
    lemma_tiling_child(root, s, j - 1);
    lemma_tiling_body(root, s);
    lemma_raws_of_at(d, root, s, i);
    let h = d.headlines@[i];
    let t = if i == m - 1 {
        tail_text(s, root)
    } else {
        seq![]
    };
    let g = gap_text(s, root, j - 1);
    assert(section_facts(h, c, s, g, t)) by {
        reveal(section_facts);
    }
    lemma_section_emit(h, c, s, g, t);
    assert(p <= c.start);
    assert(g == decoded(s.subrange(p, c.start as int))) by {
        if c.start <= p {
            lemma_decoded_empty(s, p);
        }
    }
    lemma_decode_split(s, p, c.start as int, c.end as int);
    lemma_decode_split(s, body_end(root), p, c.end as int);
    assert(emit_list(d.headlines@, i + 1) == emit_list(d.headlines@, i) + emit_text(h));
    assert(emit_list(d.headlines@, i + 1) =~= decoded(s.subrange(body_end(root), c.end as int)) + t);
}

/// Serializing an analyzed document gives back its source: the preamble and
/// the headline `raw` regions, emitted in document order, tile the source
/// byte for byte (for a tree whose ranges lie on character boundaries,
/// whose top-level nodes are ordered, and whose nested headline sections
/// tile their parents).
pub proof fn lemma_round_trip(d: Document, root: SyntaxNode, s: Seq<u8>)
    requires
        valid_utf8(s),
        tiling_ok(root, s),
        analysis_of(d, root, s),
    ensures
        document_text(d) == decode_utf8(s),
{
    let cs = root.children@;
    let n = cs.len() as int;
    let m = d.headlines@.len() as int;
    let len = s.len() as int;
    lemma_raws_of(d, root, s);
    lemma_top_prefix(d, root, s, n);
    lemma_pos_bounds(root, s, n);
    lemma_pos_bounds(root, s, 0);
    lemma_tiling_body(root, s);
    let be = body_end(root);
    let fp = final_pos(root);
    assert(kept_upto(cs, n) == kept(root));
    assert(boundary(s, len));
    assert(boundary(s, 0)) by {
        if s.len() > 0 {
            vstd::utf8::is_char_boundary_start_end_of_seq(s);
            vstd::utf8::is_char_boundary_iff_not_is_continuation_byte(s, 0);
        }
    }
    assert(tail_text(s, root) == decoded(s.subrange(fp, len))) by {
        if fp >= len {
            lemma_decoded_empty(s, fp);
        }
    }
    lemma_decode_split(s, 0, be, fp);
    lemma_decode_split(s, 0, fp, len);
    lemma_decode_split(s, be, fp, len);
    assert(s.subrange(0, len) =~= s);
    assert(decoded(s) == decode_utf8(s)) by {
        reveal(decoded);
    }
    if m == 0 {
        lemma_decoded_empty(s, be);
        assert(emit_list(d.headlines@, 0) =~= seq![]);
    }
    match crate::semantic::tree::field_child(root, crate::semantic::tree::FieldName::Body) {
        Some(b) => {
            assert(document_text(d) =~= decoded(s.subrange(0, len)));
        },
        None => {
            lemma_decoded_empty(s, 0);
            assert(document_text(d) =~= decoded(s.subrange(0, len)));
        },
    }
}

} // verus!
