//! Inline link scanning and classification.
//!
//! Bracketed links `[[target]]` / `[[target][description]]` and bare
//! `http(s)://…` URLs are found by a hand-written scan over the bytes of a
//! source slice. `][` splits target and description, `]]` terminates, an
//! empty target is not a link, and a candidate is abandoned at the first
//! newline. Scheme matching is case-sensitive. Plain URLs start only at a
//! word boundary and need a non-empty remainder after the scheme; trailing
//! sentence punctuation is trimmed.
use core::ops::Range;
use vstd::prelude::*;
use vstd::string::StringSliceAdditionalSpecFns;

use crate::text::{
    ascii_alnum, bytes_match_at, is_ascii_alnum, matches_at, substring, decoded, ws_width,
    ws_width_at,
};

verus! {

/// Link classification by target prefix.
#[derive(Debug, Clone, Copy, PartialEq, Eq, Structural)]
pub enum LinkKind {
    /// `[[id:abc]]` — org ID link.
    Id,
    /// `[[file:path]]` — file link.
    File,
    /// `[[http://…]]` / `[[https://…]]` — bracketed URL.
    Url,
    /// `[[target]]` with no recognized scheme — wiki-style internal link.
    Wiki,
    /// Bare in-text `http://…` / `https://…` run (not bracketed).
    Plain,
}

/// One link found by the inline scanner.
#[derive(Debug, PartialEq, Eq)]
pub struct Link {
    /// Classification by target prefix.
    pub kind: LinkKind,
    /// The raw target text, scheme prefix retained.
    pub target: String,
    /// The `[[target][description]]` description, when present.
    pub description: Option<String>,
    /// Byte range of the whole link in the analyzed source.
    pub span: Range<usize>,
}

impl Clone for Link {
    fn clone(&self) -> (r: Self)
        ensures
            r == *self,
    {
        let description = match &self.description {
            Some(d) => Some(d.clone()),
            None => None,
        };
        Link {
            kind: self.kind,
            target: self.target.clone(),
            description,
            span: self.span.start..self.span.end,
        }
    }
}

pub open spec fn NL() -> u8 {
    10
}

pub open spec fn LB() -> u8 {
    91
}

pub open spec fn RB() -> u8 {
    93
}

/// The bytes of `id:`.
pub open spec fn pat_id() -> Seq<u8> {
    seq![105u8, 100, 58]
}

/// The bytes of `file:`.
pub open spec fn pat_file() -> Seq<u8> {
    seq![102u8, 105, 108, 101, 58]
}

/// The bytes of `http://`.
pub open spec fn pat_http() -> Seq<u8> {
    seq![104u8, 116, 116, 112, 58, 47, 47]
}

/// The bytes of `https://`.
pub open spec fn pat_https() -> Seq<u8> {
    seq![104u8, 116, 116, 112, 115, 58, 47, 47]
}

fn id_bytes() -> (r: [u8; 3])
    ensures
        r@ == pat_id(),
{
    let r = [105u8, 100, 58];
    assert(r@ =~= pat_id());
    r
}

fn file_bytes() -> (r: [u8; 5])
    ensures
        r@ == pat_file(),
{
    let r = [102u8, 105, 108, 101, 58];
    assert(r@ =~= pat_file());
    r
}

fn http_bytes() -> (r: [u8; 7])
    ensures
        r@ == pat_http(),
{
    let r = [104u8, 116, 116, 112, 58, 47, 47];
    assert(r@ =~= pat_http());
    r
}

fn https_bytes() -> (r: [u8; 8])
    ensures
        r@ == pat_https(),
{
    let r = [104u8, 116, 116, 112, 115, 58, 47, 47];
    assert(r@ =~= pat_https());
    r
}

/// `t[a..b)` starts with `p`.
pub open spec fn has_prefix(t: Seq<u8>, a: int, b: int, p: Seq<u8>) -> bool {
    b - a >= p.len() && matches_at(t, a, p)
}

/// Classification of the bracket target `t[a..b)`.
pub open spec fn classify(t: Seq<u8>, a: int, b: int) -> LinkKind {
    if has_prefix(t, a, b, pat_id()) {
        LinkKind::Id
    } else if has_prefix(t, a, b, pat_file()) {
        LinkKind::File
    } else if has_prefix(t, a, b, pat_http()) || has_prefix(t, a, b, pat_https()) {
        LinkKind::Url
    } else {
        LinkKind::Wiki
    }
}

/// A window at `p` that ends the target scan: a newline, `]]` or `][`.
pub open spec fn is_stop(t: Seq<u8>, p: int) -> bool {
    t[p] == NL() || (t[p] == RB() && (t[p + 1] == RB() || t[p + 1] == LB()))
}

/// The first stop window at or after `p` (both bytes inside `t`), or -1.
pub open spec fn first_stop(t: Seq<u8>, p: int) -> int
    decreases t.len() - p,
{
    if p < 0 || p + 1 >= t.len() {
        -1
    } else if is_stop(t, p) {
        p
    } else {
        first_stop(t, p + 1)
    }
}

/// The first `]]` at or after `p`, or -1.
pub open spec fn find_close(t: Seq<u8>, p: int) -> int
    decreases t.len() - p,
{
    if p < 0 || p + 1 >= t.len() {
        -1
    } else if t[p] == RB() && t[p + 1] == RB() {
        p
    } else {
        find_close(t, p + 1)
    }
}

/// Whether `t[a..b)` contains a newline.
pub open spec fn has_newline(t: Seq<u8>, a: int, b: int) -> bool {
    exists|k: int| a <= k < b && t[k] == NL()
}

/// A link found in the scan: its kind, target range, optional description
/// range, and the byte range of the whole link (all relative to the text).
pub struct LinkAt {
    pub kind: LinkKind,
    pub target: (int, int),
    pub desc: Option<(int, int)>,
    pub start: int,
    pub end: int,
}

/// The bracket link starting with `[[` at `start`, if it parses.
pub open spec fn bracket_link(t: Seq<u8>, start: int) -> Option<LinkAt> {
    let i0 = start + 2;
    let p = first_stop(t, i0);
    if p < i0 || t[p] == NL() {
        None
    } else if t[p + 1] == LB() {
        let q = find_close(t, p + 2);
        if q < p + 2 || has_newline(t, p + 2, q) || p == i0 {
            None
        } else {
            Some(
                LinkAt {
                    kind: classify(t, i0, p),
                    target: (i0, p),
                    desc: Some((p + 2, q)),
                    start,
                    end: q + 2,
                },
            )
        }
    } else if p == i0 {
        None
    } else {
        Some(LinkAt { kind: classify(t, i0, p), target: (i0, p), desc: None, start, end: p + 2 })
    }
}

/// A byte that ends a plain URL (besides whitespace): `[`, `]`, `<`, `>`.
pub open spec fn is_url_delim(c: u8) -> bool {
    c == 91 || c == 93 || c == 60 || c == 62
}

/// Offset of the first URL terminator at or after `k`, or `t.len()`.
pub open spec fn url_stop(t: Seq<u8>, k: int) -> int
    decreases t.len() - k,
{
    if k >= t.len() || k < 0 {
        t.len() as int
    } else if ws_width(t, k) > 0 || is_url_delim(t[k]) {
        k
    } else {
        url_stop(t, k + 1)
    }
}

/// Trailing sentence punctuation trimmed from a plain URL:
/// `.` `,` `;` `:` `!` `?` `)` `'` `"`.
pub open spec fn is_url_punct(c: u8) -> bool {
    c == 46 || c == 44 || c == 59 || c == 58 || c == 33 || c == 63 || c == 41 || c == 39 || c
        == 34
}

/// End of `t[lo..e)` after repeatedly stripping trailing punctuation.
pub open spec fn strip_punct(t: Seq<u8>, lo: int, e: int) -> int
    decreases e - lo,
{
    if e > lo && is_url_punct(t[e - 1]) {
        strip_punct(t, lo, e - 1)
    } else {
        e
    }
}

/// The plain URL starting at `start` (which holds an `http` scheme), if it
/// has a non-empty remainder after the scheme.
pub open spec fn plain_url(t: Seq<u8>, start: int) -> Option<LinkAt> {
    let e = strip_punct(t, start, url_stop(t, start));
    let scheme_len = if has_prefix(t, start, e, pat_https()) {
        8int
    } else {
        7int
    };
    if e - start <= scheme_len {
        None
    } else {
        Some(LinkAt { kind: LinkKind::Plain, target: (start, e), desc: None, start, end: e })
    }
}

/// Plain URLs begin only at the start of the text or after a byte that is
/// not ASCII alphanumeric.
pub open spec fn word_boundary(t: Seq<u8>, i: int) -> bool {
    i == 0 || !is_ascii_alnum(t[i - 1])
}

/// The links the scanner finds in `t[i..]`, in order.
pub open spec fn links_from(t: Seq<u8>, i: int) -> Seq<LinkAt>
    decreases t.len() - i,
{
    if i < 0 || i >= t.len() {
        seq![]
    } else if i + 1 < t.len() && t[i] == LB() && t[i + 1] == LB() && bracket_link(t, i) is Some
        && i < bracket_link(t, i)->0.end <= t.len() {
        seq![bracket_link(t, i)->0] + links_from(t, bracket_link(t, i)->0.end)
    } else if word_boundary(t, i) && (matches_at(t, i, pat_http()) || matches_at(
        t,
        i,
        pat_https(),
    )) && plain_url(t, i) is Some && i < plain_url(t, i)->0.end <= t.len() {
        seq![plain_url(t, i)->0] + links_from(t, plain_url(t, i)->0.end)
    } else {
        links_from(t, i + 1)
    }
}

/// `l` is the link `a` found in `t`, with spans shifted by `offset`.
pub open spec fn link_is(l: Link, t: Seq<u8>, offset: int, a: LinkAt) -> bool {
    &&& l.kind == a.kind
    &&& l.target@ == decoded(t.subrange(a.target.0, a.target.1))
    &&& match a.desc {
        Some(d) => l.description is Some && l.description->0@ == decoded(t.subrange(d.0, d.1)),
        None => l.description is None,
    }
    &&& l.span.start == offset + a.start
    &&& l.span.end == offset + a.end
}

/// `r` is exactly what [`scan_links`] finds in `t` at source offset
/// `offset`.
pub open spec fn links_scanned(r: Seq<Link>, t: Seq<u8>, offset: int) -> bool {
    &&& r.len() == links_from(t, 0).len()
    &&& forall|k: int| 0 <= k < r.len() ==> link_is(#[trigger] r[k], t, offset, links_from(t, 0)[k])
}

proof fn lemma_first_stop(t: Seq<u8>, p: int)
    requires
        p >= 0,
    ensures
        first_stop(t, p) == -1 || (p <= first_stop(t, p) && first_stop(t, p) + 1 < t.len() && is_stop(
            t,
            first_stop(t, p),
        )),
        forall|k: int| p <= k < first_stop(t, p) ==> !is_stop(t, k),
        first_stop(t, p) == -1 ==> forall|k: int| p <= k && k + 1 < t.len() ==> !is_stop(t, k),
    decreases t.len() - p,
{
    if p + 1 < t.len() && !is_stop(t, p) {
        lemma_first_stop(t, p + 1);
    }
}

proof fn lemma_find_close(t: Seq<u8>, p: int)
    requires
        p >= 0,
    ensures
        find_close(t, p) == -1 || (p <= find_close(t, p) && find_close(t, p) + 1 < t.len()
            && t[find_close(t, p)] == RB() && t[find_close(t, p) + 1] == RB()),
    decreases t.len() - p,
{
    if p + 1 < t.len() && !(t[p] == RB() && t[p + 1] == RB()) {
        lemma_find_close(t, p + 1);
    }
}

proof fn lemma_url_stop(t: Seq<u8>, k: int)
    requires
        0 <= k <= t.len(),
    ensures
        k <= url_stop(t, k) <= t.len(),
    decreases t.len() - k,
{
    if k < t.len() && !(ws_width(t, k) > 0 || is_url_delim(t[k])) {
        lemma_url_stop(t, k + 1);
    }
}

proof fn lemma_strip_punct(t: Seq<u8>, lo: int, e: int)
    requires
        lo <= e,
    ensures
        lo <= strip_punct(t, lo, e) <= e,
    decreases e - lo,
{
    if e > lo && is_url_punct(t[e - 1]) {
        lemma_strip_punct(t, lo, e - 1);
    }
}

/// A found link stays on one line: neither its target nor its description
/// holds a newline.
pub open spec fn on_one_line(t: Seq<u8>, a: LinkAt) -> bool {
    &&& !has_newline(t, a.target.0, a.target.1)
    &&& match a.desc {
        Some(d) => !has_newline(t, d.0, d.1),
        None => true,
    }
}

proof fn lemma_url_stop_no_newline(t: Seq<u8>, k: int)
    requires
        0 <= k <= t.len(),
    ensures
        forall|j: int| k <= j < url_stop(t, k) ==> t[j] != NL(),
    decreases t.len() - k,
{
    if k < t.len() && !(ws_width(t, k) > 0 || is_url_delim(t[k])) {
        lemma_url_stop_no_newline(t, k + 1);
    }
}

/// Links never cross a line: no link the scanner finds, bracketed or
/// plain, has a newline in its target or description.
pub proof fn lemma_links_stay_on_one_line(t: Seq<u8>, i: int)
    ensures
        forall|k: int| 0 <= k < links_from(t, i).len() ==> on_one_line(t, #[trigger] links_from(t, i)[k]),
    decreases t.len() - i,
{
    if i < 0 || i >= t.len() {
    } else if i + 1 < t.len() && t[i] == LB() && t[i + 1] == LB() && bracket_link(t, i) is Some
        && i < bracket_link(t, i)->0.end <= t.len() {
        let l = bracket_link(t, i)->0;
        lemma_links_stay_on_one_line(t, l.end);
        lemma_first_stop(t, i + 2);
        assert(!has_newline(t, l.target.0, l.target.1)) by {
            assert forall|k: int| l.target.0 <= k < l.target.1 implies t[k] != NL() by {
                assert(!is_stop(t, k));
            }
        }
        assert(on_one_line(t, l));
        let rest = links_from(t, l.end);
        assert(links_from(t, i) == seq![l] + rest);
        assert forall|k: int| 0 <= k < links_from(t, i).len() implies on_one_line(
            t,
            #[trigger] links_from(t, i)[k],
        ) by {
            if k > 0 {
                assert(links_from(t, i)[k] == rest[k - 1]);
            }
        }
    } else if word_boundary(t, i) && (matches_at(t, i, pat_http()) || matches_at(t, i, pat_https()))
        && plain_url(t, i) is Some && i < plain_url(t, i)->0.end <= t.len() {
        let l = plain_url(t, i)->0;
        lemma_links_stay_on_one_line(t, l.end);
        lemma_url_stop(t, i);
        lemma_url_stop_no_newline(t, i);
        lemma_strip_punct(t, i, url_stop(t, i));
        assert(on_one_line(t, l));
        let rest = links_from(t, l.end);
        assert(links_from(t, i) == seq![l] + rest);
        assert forall|k: int| 0 <= k < links_from(t, i).len() implies on_one_line(
            t,
            #[trigger] links_from(t, i)[k],
        ) by {
            if k > 0 {
                assert(links_from(t, i)[k] == rest[k - 1]);
            }
        }
    } else {
        lemma_links_stay_on_one_line(t, i + 1);
        assert(links_from(t, i) == links_from(t, i + 1));
    }
}

/// `t[a..b)` holds no `]]`.
pub open spec fn no_close_in(t: Seq<u8>, a: int, b: int) -> bool {
    forall|k: int| a <= k && k + 1 < b ==> !(#[trigger] t[k] == RB() && t[k + 1] == RB())
}

/// The shape of a bracket link found at `a.start`: `[[`, a non-empty target
/// without `]]` classified by its prefix, then either `]]` or `][`, a
/// description and `]]`; the link ends right after the closing `]]`.
pub open spec fn bracket_shaped(t: Seq<u8>, a: LinkAt) -> bool {
    let (t0, t1) = a.target;
    &&& 0 <= a.start && a.end <= t.len()
    &&& t[a.start] == LB() && t[a.start + 1] == LB()
    &&& t0 == a.start + 2 && t0 < t1
    &&& no_close_in(t, t0, t1)
    &&& a.kind == classify(t, t0, t1)
    &&& t[t1] == RB()
    &&& match a.desc {
        None => t[t1 + 1] == RB() && a.end == t1 + 2,
        Some((d0, d1)) => t[t1 + 1] == LB() && d0 == t1 + 2 && d0 <= d1 && no_close_in(t, d0, d1)
            && t[d1] == RB() && t[d1 + 1] == RB() && a.end == d1 + 2,
    }
}

/// The shape of a plain URL found at `a.start`: it begins at a word
/// boundary with `http://` or `https://`, runs on past the scheme, and its
/// target is the whole link.
pub open spec fn plain_shaped(t: Seq<u8>, a: LinkAt) -> bool {
    &&& a.kind == LinkKind::Plain
    &&& a.desc is None
    &&& a.target == (a.start, a.end)
    &&& 0 <= a.start < a.end <= t.len()
    &&& word_boundary(t, a.start)
    &&& (has_prefix(t, a.start, a.end, pat_https()) && a.end - a.start > 8 || !has_prefix(
        t,
        a.start,
        a.end,
        pat_https(),
    ) && matches_at(t, a.start, pat_http()) && a.end - a.start > 7)
}

proof fn lemma_find_close_first(t: Seq<u8>, p: int)
    requires
        p >= 0,
        find_close(t, p) != -1,
    ensures
        no_close_in(t, p, find_close(t, p) + 1),
    decreases t.len() - p,
{
    if !(t[p] == RB() && t[p + 1] == RB()) {
        lemma_find_close_first(t, p + 1);
    }
}

/// A bracket link read at `[[` has its stated shape, whatever follows it.
pub proof fn lemma_bracket_shaped(t: Seq<u8>, i: int)
    requires
        0 <= i,
        i + 1 < t.len(),
        t[i] == LB(),
        t[i + 1] == LB(),
        bracket_link(t, i) is Some,
        bracket_link(t, i)->0.end <= t.len(),
    ensures
        bracket_shaped(t, bracket_link(t, i)->0),
{
    let l = bracket_link(t, i)->0;
    lemma_first_stop(t, i + 2);
    let p = first_stop(t, i + 2);
    assert(no_close_in(t, i + 2, p)) by {
        assert forall|k: int| i + 2 <= k && k + 1 < p implies !(#[trigger] t[k] == RB() && t[k + 1]
            == RB()) by {
            assert(!is_stop(t, k));
        }
    }
    if t[p + 1] == LB() {
        lemma_find_close(t, p + 2);
        lemma_find_close_first(t, p + 2);
        let q = find_close(t, p + 2);
        assert(no_close_in(t, p + 2, q)) by {
            assert forall|k: int| p + 2 <= k && k + 1 < q implies !(#[trigger] t[k] == RB() && t[k
                + 1] == RB()) by {
                assert(k + 1 < q + 1);
            }
        }
    }
}

/// Every link the scanner finds has its stated shape: bracket links are
/// `[[target]]` or `[[target][description]]` with a non-empty target free
/// of `]]`, and plain URLs are `http(s)://` runs longer than their scheme,
/// starting at a word boundary, whose target is the whole link.
pub proof fn lemma_links_shaped(t: Seq<u8>, i: int)
    ensures
        forall|k: int|
            0 <= k < links_from(t, i).len() ==> bracket_shaped(t, #[trigger] links_from(t, i)[k])
                || plain_shaped(t, links_from(t, i)[k]),
    decreases t.len() - i,
{
    if i < 0 || i >= t.len() {
    } else if i + 1 < t.len() && t[i] == LB() && t[i + 1] == LB() && bracket_link(t, i) is Some
        && i < bracket_link(t, i)->0.end <= t.len() {
        let l = bracket_link(t, i)->0;
        lemma_links_shaped(t, l.end);
        lemma_bracket_shaped(t, i);
        let rest = links_from(t, l.end);
        assert(links_from(t, i) == seq![l] + rest);
        assert forall|k: int| 0 <= k < links_from(t, i).len() implies bracket_shaped(
            t,
            #[trigger] links_from(t, i)[k],
        ) || plain_shaped(t, links_from(t, i)[k]) by {
            if k > 0 {
                assert(links_from(t, i)[k] == rest[k - 1]);
            }
        }
    } else if word_boundary(t, i) && (matches_at(t, i, pat_http()) || matches_at(t, i, pat_https()))
        && plain_url(t, i) is Some && i < plain_url(t, i)->0.end <= t.len() {
        let l = plain_url(t, i)->0;
        lemma_links_shaped(t, l.end);
        lemma_url_stop(t, i);
        lemma_strip_punct(t, i, url_stop(t, i));
        assert(plain_shaped(t, l));
        let rest = links_from(t, l.end);
        assert(links_from(t, i) == seq![l] + rest);
        assert forall|k: int| 0 <= k < links_from(t, i).len() implies bracket_shaped(
            t,
            #[trigger] links_from(t, i)[k],
        ) || plain_shaped(t, links_from(t, i)[k]) by {
            if k > 0 {
                assert(links_from(t, i)[k] == rest[k - 1]);
            }
        }
    } else {
        lemma_links_shaped(t, i + 1);
        assert(links_from(t, i) == links_from(t, i + 1));
    }
}

/// `s` lists links in text order without overlap, all within `[i, n)`.
pub open spec fn ordered_links(s: Seq<LinkAt>, i: int, n: int) -> bool {
    &&& forall|k: int| 0 <= k < s.len() ==> i <= (#[trigger] s[k]).start < s[k].end <= n
    &&& forall|j: int, k: int| 0 <= j < k < s.len() ==> (#[trigger] s[j]).end <= (#[trigger] s[k]).start
}

proof fn lemma_ordered_cons(l: LinkAt, rest: Seq<LinkAt>, i: int, n: int)
    requires
        i <= l.start < l.end <= n,
        ordered_links(rest, l.end, n),
    ensures
        ordered_links(seq![l] + rest, i, n),
{
    let s = seq![l] + rest;
    assert forall|k: int| 0 <= k < s.len() implies i <= (#[trigger] s[k]).start < s[k].end <= n by {
        if k > 0 {
            assert(s[k] == rest[k - 1]);
        }
    }
    assert forall|j: int, k: int| 0 <= j < k < s.len() implies (#[trigger] s[j]).end <= (
    #[trigger] s[k]).start by {
        assert(s[k] == rest[k - 1]);
        if j > 0 {
            assert(s[j] == rest[j - 1]);
        }
    }
}

proof fn lemma_ordered_widen(s: Seq<LinkAt>, i: int, j: int, n: int)
    requires
        i <= j,
        ordered_links(s, j, n),
    ensures
        ordered_links(s, i, n),
{
}

/// Links come in text order and never overlap: each starts at or after `i`
/// and ends after it starts, and every later link starts where or after an
/// earlier one ended (so a URL inside a bracket link is never reported
/// again).
pub proof fn lemma_links_ordered(t: Seq<u8>, i: int)
    ensures
        ordered_links(links_from(t, i), i, t.len() as int),
    decreases t.len() - i,
{
    if i < 0 || i >= t.len() {
    } else if i + 1 < t.len() && t[i] == LB() && t[i + 1] == LB() && bracket_link(t, i) is Some
        && i < bracket_link(t, i)->0.end <= t.len() {
        let l = bracket_link(t, i)->0;
        lemma_links_ordered(t, l.end);
        assert(links_from(t, i) == seq![l] + links_from(t, l.end));
        lemma_ordered_cons(l, links_from(t, l.end), i, t.len() as int);
    } else if word_boundary(t, i) && (matches_at(t, i, pat_http()) || matches_at(t, i, pat_https()))
        && plain_url(t, i) is Some && i < plain_url(t, i)->0.end <= t.len() {
        let l = plain_url(t, i)->0;
        lemma_links_ordered(t, l.end);
        assert(links_from(t, i) == seq![l] + links_from(t, l.end));
        lemma_ordered_cons(l, links_from(t, l.end), i, t.len() as int);
    } else {
        lemma_links_ordered(t, i + 1);
        assert(links_from(t, i) == links_from(t, i + 1));
        lemma_ordered_widen(links_from(t, i), i, i + 1, t.len() as int);
    }
}

/// A bracket target is classified by its scheme: one starting `http://` or
/// `https://` is a URL, one starting `id:` an ID link, one starting `file:`
/// a file link; a target with none of these prefixes is a wiki link.
pub proof fn lemma_targets_classified_by_scheme(t: Seq<u8>, a: int, b: int)
    ensures
        has_prefix(t, a, b, seq![104u8, 116, 116, 112, 58, 47, 47]) ==> classify(t, a, b) == LinkKind::Url,
        has_prefix(t, a, b, seq![104u8, 116, 116, 112, 115, 58, 47, 47]) ==> classify(t, a, b)
            == LinkKind::Url,
        has_prefix(t, a, b, seq![105u8, 100, 58]) ==> classify(t, a, b) == LinkKind::Id,
        has_prefix(t, a, b, seq![102u8, 105, 108, 101, 58]) ==> classify(t, a, b) == LinkKind::File,
        !has_prefix(t, a, b, seq![104u8, 116, 116, 112, 58, 47, 47]) && !has_prefix(
            t,
            a,
            b,
            seq![104u8, 116, 116, 112, 115, 58, 47, 47],
        ) && !has_prefix(t, a, b, seq![105u8, 100, 58]) && !has_prefix(
            t,
            a,
            b,
            seq![102u8, 105, 108, 101, 58],
        ) ==> classify(t, a, b) == LinkKind::Wiki,
        classify(t, a, b) != LinkKind::Plain,
{
    assert(pat_http() == seq![104u8, 116, 116, 112, 58, 47, 47]);
    assert(pat_https() == seq![104u8, 116, 116, 112, 115, 58, 47, 47]);
    assert(pat_id() == seq![105u8, 100, 58]);
    assert(pat_file() == seq![102u8, 105, 108, 101, 58]);
    if has_prefix(t, a, b, pat_http()) || has_prefix(t, a, b, pat_https()) {
        assert(t.subrange(a, a + 1)[0] == t[a]);
        assert(t[a] == 104);
        if has_prefix(t, a, b, pat_id()) {
            assert(t.subrange(a, a + 3)[0] == t[a]);
        }
        if has_prefix(t, a, b, pat_file()) {
            assert(t.subrange(a, a + 5)[0] == t[a]);
        }
    }
}

fn classify_target(t: &[u8], a: usize, b: usize) -> (k: LinkKind)
    requires
        a <= b <= t@.len(),
    ensures
        k == classify(t@, a as int, b as int),
{
    let len = b - a;
    if len >= 3 && bytes_match_at(t, a, &id_bytes()) {
        LinkKind::Id
    } else if len >= 5 && bytes_match_at(t, a, &file_bytes()) {
        LinkKind::File
    } else if (len >= 7 && bytes_match_at(t, a, &http_bytes())) || (len >= 8 && bytes_match_at(
        t,
        a,
        &https_bytes(),
    )) {
        LinkKind::Url
    } else {
        LinkKind::Wiki
    }
}

fn first_stop_at(t: &[u8], p: usize) -> (r: Option<usize>)
    ensures
        match r {
            Some(q) => q as int == first_stop(t@, p as int),
            None => first_stop(t@, p as int) == -1,
        },
{
    let len = t.len();
    let mut k = p;
    while k < len && len - k > 1
        invariant
            p <= k,
            len == t@.len(),
            first_stop(t@, p as int) == first_stop(t@, k as int),
        decreases len - k,
    {
        if t[k] == 10 || (t[k] == 93 && (t[k + 1] == 93 || t[k + 1] == 91)) {
            return Some(k);
        }
        k = k + 1;
    }
    None
}

fn find_close_at(t: &[u8], p: usize) -> (r: Option<usize>)
    ensures
        match r {
            Some(q) => q as int == find_close(t@, p as int),
            None => find_close(t@, p as int) == -1,
        },
{
    let len = t.len();
    let mut k = p;
    while k < len && len - k > 1
        invariant
            p <= k,
            len == t@.len(),
            find_close(t@, p as int) == find_close(t@, k as int),
        decreases len - k,
    {
        if t[k] == 93 && t[k + 1] == 93 {
            return Some(k);
        }
        k = k + 1;
    }
    None
}

fn has_newline_in(t: &[u8], a: usize, b: usize) -> (r: bool)
    requires
        a <= b <= t@.len(),
    ensures
        r == has_newline(t@, a as int, b as int),
{
    let mut k = a;
    while k < b
        invariant
            a <= k <= b <= t@.len(),
            forall|j: int| a <= j < k ==> t@[j] != NL(),
        decreases b - k,
    {
        if t[k] == 10 {
            return true;
        }
        k = k + 1;
    }
    false
}

/// Parse the bracket link whose `[[` sits at `start`.
fn parse_bracket_link(text: &[u8], start: usize, offset: usize) -> (r: Option<(Link, usize)>)
    requires
        start + 1 < text@.len(),
        text@[start as int] == LB(),
        text@[start + 1] == LB(),
        offset + text@.len() <= usize::MAX,
    ensures
        match bracket_link(text@, start as int) {
            Some(a) => r matches Some((l, e)) && e == a.end && link_is(
                l,
                text@,
                offset as int,
                a,
            ) && start < e <= text@.len(),
            None => r is None,
        },
{
    let i0 = start + 2;
    proof {
        lemma_first_stop(text@, i0 as int);
    }
    let p = match first_stop_at(text, i0) {
        Some(p) => p,
        None => return None,
    };
    if text[p] == 10 {
        return None;
    }
    if text[p + 1] == 91 {
        // `][`: the description runs to the next `]]`.
        proof {
            lemma_find_close(text@, p + 2);
        }
        let q = match find_close_at(text, p + 2) {
            Some(q) => q,
            None => return None,
        };
        if has_newline_in(text, p + 2, q) || p == i0 {
            return None;
        }
        let kind = classify_target(text, i0, p);
        let target = substring(text, i0, p);
        let desc = substring(text, p + 2, q);
        let end = q + 2;
        let link = Link { kind, target, description: Some(desc), span: offset + start..offset + end };
        Some((link, end))
    } else {
        // `]]`: the target runs to here.
        if p == i0 {
            return None;
        }
        let kind = classify_target(text, i0, p);
        let target = substring(text, i0, p);
        let end = p + 2;
        let link = Link { kind, target, description: None, span: offset + start..offset + end };
        Some((link, end))
    }
}

fn url_stop_at(t: &[u8], start: usize) -> (r: usize)
    requires
        start <= t@.len(),
    ensures
        r as int == url_stop(t@, start as int),
        start <= r <= t@.len(),
{
    let len = t.len();
    let mut k = start;
    while k < len
        invariant
            start <= k <= len,
            len == t@.len(),
            url_stop(t@, start as int) == url_stop(t@, k as int),
        decreases len - k,
    {
        let c = t[k];
        if ws_width_at(t, k) > 0 || c == 91 || c == 93 || c == 60 || c == 62 {
            return k;
        }
        k = k + 1;
    }
    k
}

fn strip_punct_at(t: &[u8], lo: usize, e: usize) -> (r: usize)
    requires
        lo <= e <= t@.len(),
    ensures
        r as int == strip_punct(t@, lo as int, e as int),
        lo <= r <= e,
{
    let mut k = e;
    while k > lo
        invariant
            lo <= k <= e <= t@.len(),
            strip_punct(t@, lo as int, e as int) == strip_punct(t@, lo as int, k as int),
        decreases k - lo,
    {
        let c = t[k - 1];
        if !(c == 46 || c == 44 || c == 59 || c == 58 || c == 33 || c == 63 || c == 41 || c == 39
            || c == 34) {
            return k;
        }
        k = k - 1;
    }
    k
}

/// Parse a bare URL starting at `start` (which holds an `http` scheme).
fn parse_plain_url(text: &[u8], start: usize, offset: usize) -> (r: Option<(Link, usize)>)
    requires
        start < text@.len(),
        offset + text@.len() <= usize::MAX,
    ensures
        match plain_url(text@, start as int) {
            Some(a) => r matches Some((l, e)) && e == a.end && link_is(
                l,
                text@,
                offset as int,
                a,
            ) && start < e <= text@.len(),
            None => r is None,
        },
{
    let k = url_stop_at(text, start);
    let e = strip_punct_at(text, start, k);
    let scheme_len: usize = if e - start >= 8 && bytes_match_at(text, start, &https_bytes()) {
        8
    } else {
        7
    };
    if e - start <= scheme_len {
        return None;
    }
    let target = substring(text, start, e);
    let link = Link {
        kind: LinkKind::Plain,
        target,
        description: None,
        span: offset + start..offset + e,
    };
    Some((link, e))
}

/// Scan `text` for bracketed links and plain URLs. `offset` is the byte
/// position of `text` in the analyzed source. Bracketed links win over
/// plain-URL detection inside their own span.
pub fn scan_links(text: &str, offset: usize) -> (r: Vec<Link>)
    requires
        offset + text.spec_bytes().len() <= usize::MAX,
    ensures
        r@.len() == links_from(text.spec_bytes(), 0).len(),
        forall|k: int|
            0 <= k < r@.len() ==> link_is(
                #[trigger] r@[k],
                text.spec_bytes(),
                offset as int,
                links_from(text.spec_bytes(), 0)[k],
            ),
{
    let bytes = text.as_bytes();
    scan_links_bytes(bytes, offset)
}

/// [`scan_links`] over raw bytes.
pub fn scan_links_bytes(bytes: &[u8], offset: usize) -> (r: Vec<Link>)
    requires
        offset + bytes@.len() <= usize::MAX,
    ensures
        r@.len() == links_from(bytes@, 0).len(),
        forall|k: int|
            0 <= k < r@.len() ==> link_is(
                #[trigger] r@[k],
                bytes@,
                offset as int,
                links_from(bytes@, 0)[k],
            ),
{
    let len = bytes.len();
    let mut links: Vec<Link> = Vec::new();
    let mut i: usize = 0;
    let ghost done: Seq<LinkAt> = seq![];
    while i < len
        invariant
            i <= len,
            len == bytes@.len(),
            offset + len <= usize::MAX,
            links@.len() == done.len(),
            forall|k: int|
                0 <= k < links@.len() ==> link_is(#[trigger] links@[k], bytes@, offset as int, done[k]),
            links_from(bytes@, 0) == done + links_from(bytes@, i as int),
        decreases len - i,
    {
        if bytes[i] == 91 && i + 1 < len && bytes[i + 1] == 91 {
            match parse_bracket_link(bytes, i, offset) {
                Some((link, end)) => {
                    proof {
                        let a = bracket_link(bytes@, i as int)->0;
                        assert(links_from(bytes@, i as int) == seq![a] + links_from(
                            bytes@,
                            a.end,
                        ));
                        assert(done + links_from(bytes@, i as int) =~= (done + seq![a])
                            + links_from(bytes@, a.end));
                        done = done + seq![a];
                    }
                    links.push(link);
                    i = end;
                    continue;
                },
                None => {},
            }
        }
        let boundary = i == 0 || !ascii_alnum(bytes[i - 1]);
        if boundary && (bytes_match_at(bytes, i, &http_bytes()) || bytes_match_at(
            bytes,
            i,
            &https_bytes(),
        )) {
            match parse_plain_url(bytes, i, offset) {
                Some((link, end)) => {
                    proof {
                        let a = plain_url(bytes@, i as int)->0;
                        assert(links_from(bytes@, i as int) == seq![a] + links_from(
                            bytes@,
                            a.end,
                        ));
                        assert(done + links_from(bytes@, i as int) =~= (done + seq![a])
                            + links_from(bytes@, a.end));
                        done = done + seq![a];
                    }
                    links.push(link);
                    i = end;
                    continue;
                },
                None => {},
            }
        }
        proof {
            assert(links_from(bytes@, i as int) == links_from(bytes@, i + 1));
        }
        i = i + 1;
    }
    proof {
        assert(links_from(bytes@, i as int) =~= seq![]);
        assert(done + seq![] =~= done);
    }
    links
}

} // verus!
