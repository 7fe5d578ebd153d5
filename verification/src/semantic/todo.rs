//! TODO keyword state and document-level cycling configuration.
//!
//! Org TODO keywords are configuration, not syntax: [`TodoConfig`] decides
//! which first word of a headline counts as a state — either the Orgsidian
//! default sequence or the document's own `#+TODO:` directives.
use core::ops::Range;
use vstd::prelude::*;
use vstd::string::{StringExecFns, StringSliceAdditionalSpecFns};

use crate::text::{
    find_byte, find_byte_at, lemma_find_byte, split_ws, substring, decoded, ws_tokens,
};

verus! {

/// A recognized TODO keyword on a headline, with its done-class.
#[derive(Debug, PartialEq, Eq)]
pub struct TodoState {
    /// The keyword text exactly as written in the source.
    pub keyword: String,
    /// `true` if the keyword belongs to the done set of its sequence.
    pub done: bool,
    /// Byte range of the keyword in the analyzed source.
    pub span: Range<usize>,
}

impl Clone for TodoState {
    fn clone(&self) -> (r: Self)
        ensures
            r == *self,
    {
        TodoState {
            keyword: self.keyword.clone(),
            done: self.done,
            span: self.span.start..self.span.end,
        }
    }
}

/// One ordered TODO keyword sequence: active keywords, then done keywords.
#[derive(Debug, Clone, PartialEq, Eq)]
pub struct TodoSequence {
    /// Keywords before the `|` separator (not-yet-done states), in order.
    pub active: Vec<String>,
    /// Keywords after the `|` separator (done states), in order.
    pub done: Vec<String>,
}

/// The text of each string in `v`.
pub open spec fn texts(v: Seq<String>) -> Seq<Seq<char>> {
    v.map_values(|s: String| s@)
}

impl View for TodoSequence {
    type V = (Seq<Seq<char>>, Seq<Seq<char>>);

    open spec fn view(&self) -> (Seq<Seq<char>>, Seq<Seq<char>>) {
        (texts(self.active@), texts(self.done@))
    }
}

pub proof fn lemma_texts(v: Seq<String>)
    ensures
        texts(v).len() == v.len(),
        forall|k: int| 0 <= k < v.len() ==> #[trigger] texts(v)[k] == v[k]@,
{
}

/// All keywords of a sequence in cycling order.
pub open spec fn seq_keywords(s: (Seq<Seq<char>>, Seq<Seq<char>>)) -> Seq<Seq<char>> {
    s.0 + s.1
}

/// The resolved TODO keyword configuration for one document.
#[derive(Debug, Clone, PartialEq, Eq)]
pub struct TodoConfig {
    /// The configured sequences, in directive declaration order.
    pub sequences: Vec<TodoSequence>,
}

impl View for TodoConfig {
    type V = Seq<(Seq<Seq<char>>, Seq<Seq<char>>)>;

    open spec fn view(&self) -> Seq<(Seq<Seq<char>>, Seq<Seq<char>>)> {
        self.sequences@.map_values(|s: TodoSequence| s@)
    }
}

/// `TODO NEXT | DONE WAITING`.
pub open spec fn default_sequences() -> Seq<(Seq<Seq<char>>, Seq<Seq<char>>)> {
    seq![(seq![seq!['T', 'O', 'D', 'O'], seq!['N', 'E', 'X', 'T']], seq![seq!['D', 'O', 'N', 'E'], seq!['W', 'A', 'I', 'T', 'I', 'N', 'G']])]
}

/// The done-class of `kw` under `seqs`: the first sequence that lists it
/// decides (active → `Some(false)`, done → `Some(true)`); `None` when no
/// sequence lists it.
pub open spec fn classify_in(seqs: Seq<(Seq<Seq<char>>, Seq<Seq<char>>)>, kw: Seq<char>) -> Option<bool>
    decreases seqs.len(),
{
    if seqs.len() == 0 {
        None
    } else if first_index_from(seqs[0].0, kw, 0) >= 0 {
        Some(false)
    } else if first_index_from(seqs[0].1, kw, 0) >= 0 {
        Some(true)
    } else {
        classify_in(seqs.drop_first(), kw)
    }
}

/// Index of the first occurrence of `x` in `s` at or after `i`, or -1.
pub open spec fn first_index_from(s: Seq<Seq<char>>, x: Seq<char>, i: int) -> int
    decreases s.len() - i,
{
    if i < 0 || i >= s.len() {
        -1
    } else if s[i] == x {
        i
    } else {
        first_index_from(s, x, i + 1)
    }
}

pub proof fn lemma_first_index_from(s: Seq<Seq<char>>, x: Seq<char>, i: int)
    requires
        0 <= i,
    ensures
        first_index_from(s, x, i) == -1 || (i <= first_index_from(s, x, i) < s.len() && s[first_index_from(s, x, i)] == x),
        first_index_from(s, x, i) == -1 <==> forall|j: int| i <= j < s.len() ==> s[j] != x,
        forall|j: int| i <= j < first_index_from(s, x, i) ==> s[j] != x,
    decreases s.len() - i,
{
    if i < s.len() && s[i] != x {
        lemma_first_index_from(s, x, i + 1);
    }
}

/// The keyword after `cur` in the first sequence containing it (wrapping),
/// or `None` when no sequence contains it.
pub open spec fn next_in(seqs: Seq<(Seq<Seq<char>>, Seq<Seq<char>>)>, cur: Seq<char>) -> Option<Seq<char>>
    decreases seqs.len(),
{
    if seqs.len() == 0 {
        None
    } else {
        let ks = seq_keywords(seqs[0]);
        let pos = first_index_from(ks, cur, 0);
        if pos >= 0 {
            Some(ks[(pos + 1) % (ks.len() as int)])
        } else {
            next_in(seqs.drop_first(), cur)
        }
    }
}

/// The first keyword of the first sequence, if any.
pub open spec fn first_keyword(seqs: Seq<(Seq<Seq<char>>, Seq<Seq<char>>)>) -> Option<Seq<char>> {
    if seqs.len() > 0 && seq_keywords(seqs[0]).len() > 0 {
        Some(seq_keywords(seqs[0])[0])
    } else {
        None
    }
}

/// Byte equality of two strings decides equality of their text.
pub(crate) fn str_eq(a: &str, b: &str) -> (r: bool)
    ensures
        r == (a@ == b@),
{
    let x = a.as_bytes();
    let y = b.as_bytes();
    proof {
        vstd::utf8::encode_utf8_decode_utf8(a@);
        vstd::utf8::encode_utf8_decode_utf8(b@);
    }
    if x.len() != y.len() {
        return false;
    }
    let mut k: usize = 0;
    while k < x.len()
        invariant
            k <= x@.len(),
            x@.len() == y@.len(),
            x@ == a.spec_bytes(),
            y@ == b.spec_bytes(),
            forall|j: int| 0 <= j < k ==> x@[j] == y@[j],
        decreases x@.len() - k,
    {
        if x[k] != y[k] {
            return false;
        }
        k = k + 1;
    }
    proof {
        assert(x@ =~= y@);
    }
    true
}

/// Index of the first string in `v` whose text is `kw`.
fn position_of(v: &Vec<String>, kw: &str) -> (r: Option<usize>)
    ensures
        match r {
            Some(i) => i as int == first_index_from(texts(v@), kw@, 0),
            None => first_index_from(texts(v@), kw@, 0) == -1,
        },
{
    let mut i: usize = 0;
    while i < v.len()
        invariant
            i <= v@.len(),
            first_index_from(texts(v@), kw@, 0) == first_index_from(texts(v@), kw@, i as int),
        decreases v@.len() - i,
    {
        if str_eq(v[i].as_str(), kw) {
            proof {
                assert(texts(v@)[i as int] == kw@);
            }
            return Some(i);
        }
        proof {
            assert(texts(v@)[i as int] != kw@);
        }
        i = i + 1;
    }
    proof {
        assert(texts(v@).len() == v@.len());
    }
    None
}

impl TodoSequence {
    /// All keywords of this sequence in declaration (cycling) order.
    pub fn keywords(&self) -> (r: Vec<String>)
        ensures
            texts(r@) == seq_keywords(self@),
    {
        let mut out: Vec<String> = Vec::new();
        let mut i: usize = 0;
        while i < self.active.len()
            invariant
                i <= self.active@.len(),
                texts(out@) =~= texts(self.active@).take(i as int),
            decreases self.active@.len() - i,
        {
            let x = self.active[i].clone();
            let ghost prev = out@;
            out.push(x);
            proof {
                assert(out@ == prev.push(x));
                assert(x@ == self.active@[i as int]@);
                lemma_texts(out@);
                lemma_texts(prev);
                lemma_texts(self.active@);
                assert forall|k: int| 0 <= k < i + 1 implies texts(out@)[k] == texts(
                    self.active@,
                ).take(i + 1)[k] by {
                    if k < i {
                        assert(texts(prev)[k] == texts(self.active@).take(i as int)[k]);
                    }
                }
                assert(texts(out@) =~= texts(self.active@).take(i + 1));
            }
            i = i + 1;
        }
        let mut j: usize = 0;
        while j < self.done.len()
            invariant
                j <= self.done@.len(),
                texts(out@) =~= texts(self.active@) + texts(self.done@).take(j as int),
            decreases self.done@.len() - j,
        {
            let x = self.done[j].clone();
            let ghost prev = out@;
            out.push(x);
            proof {
                assert(out@ == prev.push(x));
                assert(x@ == self.done@[j as int]@);
                lemma_texts(out@);
                lemma_texts(prev);
                lemma_texts(self.active@);
                lemma_texts(self.done@);
                let want = texts(self.active@) + texts(self.done@).take(j + 1);
                let had = texts(self.active@) + texts(self.done@).take(j as int);
                assert forall|k: int| 0 <= k < want.len() implies texts(out@)[k] == want[k] by {
                    if k < had.len() {
                        assert(texts(prev)[k] == had[k]);
                    }
                }
                assert(texts(out@) =~= want);
            }
            j = j + 1;
        }
        proof {
            assert(texts(self.done@).take(self.done@.len() as int) =~= texts(self.done@));
        }
        out
    }
}

impl Default for TodoConfig {
    /// Active `TODO`, `NEXT`; done `DONE`, `WAITING`.
    fn default() -> (r: Self)
        ensures
            r@ == default_sequences(),
    {
        let mut active: Vec<String> = Vec::new();
        active.push(String::from_str("TODO"));
        active.push(String::from_str("NEXT"));
        let mut done: Vec<String> = Vec::new();
        done.push(String::from_str("DONE"));
        done.push(String::from_str("WAITING"));
        proof {
            reveal_strlit("TODO");
            reveal_strlit("NEXT");
            reveal_strlit("DONE");
            reveal_strlit("WAITING");
        }
        let sq = TodoSequence { active, done };
        let mut sequences: Vec<TodoSequence> = Vec::new();
        sequences.push(sq);
        let r = TodoConfig { sequences };
        proof {
            assert(sq.active@[0]@ =~= seq!['T', 'O', 'D', 'O']);
            assert(sq.active@[1]@ =~= seq!['N', 'E', 'X', 'T']);
            assert(sq.done@[0]@ =~= seq!['D', 'O', 'N', 'E']);
            assert(sq.done@[1]@ =~= seq!['W', 'A', 'I', 'T', 'I', 'N', 'G']);
            assert(texts(sq.active@) =~= default_sequences()[0].0);
            assert(texts(sq.done@) =~= default_sequences()[0].1);
            assert(r@ =~= default_sequences());
        }
        r
    }
}

/// `s[a..b)` with an org fast-access suffix (`TODO(t!)`) removed: when the
/// token contains `(` and ends with `)`, everything from the first `(` on.
pub open spec fn strip_fast_access_range(t: Seq<u8>, a: int, b: int) -> (int, int) {
    let f = find_byte(t, a, b, 40);
    if f < b && b > a && t[b - 1] == 41 {
        (a, f)
    } else {
        (a, b)
    }
}

/// The non-empty fast-access-stripped words among `toks`, in order.
pub open spec fn words_of(t: Seq<u8>, toks: Seq<(int, int)>) -> Seq<(int, int)>
    decreases toks.len(),
{
    if toks.len() == 0 {
        seq![]
    } else {
        let w = strip_fast_access_range(t, toks.last().0, toks.last().1);
        words_of(t, toks.drop_last()) + if w.1 > w.0 {
            seq![w]
        } else {
            seq![]
        }
    }
}

/// The keywords written in `t[a..b)`.
pub open spec fn words_in(t: Seq<u8>, a: int, b: int) -> Seq<(int, int)> {
    words_of(t, ws_tokens(t, a, b))
}

/// The text of each byte range of `t`.
pub open spec fn range_texts(t: Seq<u8>, rs: Seq<(int, int)>) -> Seq<Seq<char>> {
    rs.map_values(|r: (int, int)| decoded(t.subrange(r.0, r.1)))
}

/// One `#+TODO:` value with org's pipe convention: keywords before `|` are
/// active, after it done; with no `|` the last keyword is the done set.
/// `None` when the value names no keyword.
pub open spec fn directive_sequence(t: Seq<u8>) -> Option<(Seq<Seq<char>>, Seq<Seq<char>>)> {
    let n = t.len() as int;
    let p = find_byte(t, 0, n, 124);
    if p < n {
        let act = words_in(t, 0, p);
        let dn = words_in(t, p + 1, n);
        if act.len() == 0 && dn.len() == 0 {
            None
        } else {
            Some((range_texts(t, act), range_texts(t, dn)))
        }
    } else {
        let all = words_in(t, 0, n);
        if all.len() == 0 {
            None
        } else {
            Some((range_texts(t, all.drop_last()), range_texts(t, seq![all.last()])))
        }
    }
}

/// The sequences the directive values `vals` yield, in order.
pub open spec fn directive_sequences(vals: Seq<Seq<u8>>) -> Seq<(Seq<Seq<char>>, Seq<Seq<char>>)>
    decreases vals.len(),
{
    if vals.len() == 0 {
        seq![]
    } else {
        directive_sequences(vals.drop_last()) + match directive_sequence(vals.last()) {
            Some(sq) => seq![sq],
            None => seq![],
        }
    }
}

/// The configuration the directive values `vals` resolve to.
pub open spec fn config_from_values(vals: Seq<Seq<u8>>) -> Seq<(Seq<Seq<char>>, Seq<Seq<char>>)> {
    if directive_sequences(vals).len() == 0 {
        default_sequences()
    } else {
        directive_sequences(vals)
    }
}

/// Every keyword across `seqs`, in declaration order.
pub open spec fn all_keywords(seqs: Seq<(Seq<Seq<char>>, Seq<Seq<char>>)>) -> Seq<Seq<char>>
    decreases seqs.len(),
{
    if seqs.len() == 0 {
        seq![]
    } else {
        all_keywords(seqs.drop_last()) + seq_keywords(seqs.last())
    }
}

proof fn lemma_range_texts_push(t: Seq<u8>, rs: Seq<(int, int)>, r: (int, int))
    ensures
        range_texts(t, rs.push(r)) == range_texts(t, rs).push(decoded(t.subrange(r.0, r.1))),
{
    assert(range_texts(t, rs.push(r)) =~= range_texts(t, rs).push(
        decoded(t.subrange(r.0, r.1)),
    ));
}

/// Strip an org fast-access suffix from the token `t[a..b)`.
fn strip_fast_access(t: &[u8], a: usize, b: usize) -> (r: (usize, usize))
    requires
        a <= b <= t@.len(),
    ensures
        r.0 as int == strip_fast_access_range(t@, a as int, b as int).0,
        r.1 as int == strip_fast_access_range(t@, a as int, b as int).1,
        a <= r.0 <= r.1 <= b,
{
    let f = find_byte_at(t, a, b, 40);
    if f < b && b > a && t[b - 1] == 41 {
        (a, f)
    } else {
        (a, b)
    }
}

/// The keywords written in `t[a..b)` (whitespace-separated, fast-access
/// suffixes stripped, empty words dropped).
fn words(t: &[u8], a: usize, b: usize) -> (r: Vec<String>)
    requires
        a <= b <= t@.len(),
    ensures
        texts(r@) == range_texts(t@, words_in(t@, a as int, b as int)),
{
    let toks = split_ws(t, a, b);
    let ghost spec_toks = ws_tokens(t@, a as int, b as int);
    let mut out: Vec<String> = Vec::new();
    let mut k: usize = 0;
    proof {
        assert(spec_toks.take(0) =~= seq![]);
        lemma_texts(out@);
        assert(texts(out@) =~= range_texts(t@, words_of(t@, spec_toks.take(0))));
    }
    while k < toks.len()
        invariant
            k <= toks@.len(),
            toks@.len() == spec_toks.len(),
            spec_toks == ws_tokens(t@, a as int, b as int),
            a <= b <= t@.len(),
            forall|j: int|
                0 <= j < toks@.len() ==> (#[trigger] toks@[j]).0 as int == spec_toks[j].0
                    && toks@[j].1 as int == spec_toks[j].1,
            texts(out@) == range_texts(t@, words_of(t@, spec_toks.take(k as int))),
        decreases toks@.len() - k,
    {
        let (x, y) = toks[k];
        proof {
            lemma_ws_tokens_in_range(t@, a as int, b as int);
            assert(spec_toks[k as int] == (x as int, y as int));
        }
        let (wa, wb) = strip_fast_access(t, x, y);
        proof {
            let tk = spec_toks.take(k + 1);
            assert(tk.drop_last() =~= spec_toks.take(k as int));
            assert(tk.last() == (x as int, y as int));
        }
        if wb > wa {
            let w = substring(t, wa, wb);
            let ghost prev = out@;
            out.push(w);
            proof {
                lemma_texts(out@);
                lemma_texts(prev);
                let ws = words_of(t@, spec_toks.take(k as int));
                assert(words_of(t@, spec_toks.take(k + 1)) == ws.push((wa as int, wb as int)));
                lemma_range_texts_push(t@, ws, (wa as int, wb as int));
                assert(texts(out@) =~= texts(prev).push(w@));
            }
        } else {
            proof {
                let ws = words_of(t@, spec_toks.take(k as int));
                assert(words_of(t@, spec_toks.take(k + 1)) =~= ws);
            }
        }
        k = k + 1;
    }
    proof {
        assert(spec_toks.take(k as int) =~= spec_toks);
    }
    out
}

pub proof fn lemma_ws_tokens_in_range(t: Seq<u8>, a: int, b: int)
    requires
        a <= b <= t.len(),
    ensures
        forall|j: int|
            0 <= j < ws_tokens(t, a, b).len() ==> a <= (#[trigger] ws_tokens(t, a, b)[j]).0
                <= ws_tokens(t, a, b)[j].1 <= b,
    decreases b - a,
{
    crate::text::lemma_skip_ws_bounds(t, a, b);
    let s = crate::text::skip_ws(t, a, b);
    if s < b && s >= a {
        let e = crate::text::next_ws(t, s, b);
        crate::text::lemma_next_ws_bounds(t, s, b);
        if e > s && e <= b {
            lemma_ws_tokens_in_range(t, e, b);
            let rest = ws_tokens(t, e, b);
            assert(ws_tokens(t, a, b) == seq![(s, e)] + rest);
            assert forall|j: int| 0 <= j < ws_tokens(t, a, b).len() implies a <= (
            #[trigger] ws_tokens(t, a, b)[j]).0 <= ws_tokens(t, a, b)[j].1 <= b by {
                if j > 0 {
                    assert(ws_tokens(t, a, b)[j] == rest[j - 1]);
                }
            }
        }
    }
}

/// Parse one `#+TODO:` directive value.
pub fn parse_directive_value(value: &str) -> (r: Option<TodoSequence>)
    ensures
        match directive_sequence(value.spec_bytes()) {
            Some(sq) => r matches Some(s) && s@ == sq,
            None => r is None,
        },
{
    let t = value.as_bytes();
    let n = t.len();
    let p = find_byte_at(t, 0, n, 124);
    if p < n {
        let active = words(t, 0, p);
        let done = words(t, p + 1, n);
        proof {
            lemma_texts(active@);
            lemma_texts(done@);
            assert(range_texts(t@, words_in(t@, 0, p as int)).len() == words_in(t@, 0, p as int).len());
            assert(range_texts(t@, words_in(t@, p + 1, n as int)).len() == words_in(t@, p + 1, n as int).len());
        }
        if active.len() == 0 && done.len() == 0 {
            return None;
        }
        Some(TodoSequence { active, done })
    } else {
        let mut all = words(t, 0, n);
        proof {
            lemma_texts(all@);
            assert(range_texts(t@, words_in(t@, 0, n as int)).len() == words_in(t@, 0, n as int).len());
        }
        if all.len() == 0 {
            return None;
        }
        let ghost before = all@;
        let last = all.pop().unwrap();
        let mut done: Vec<String> = Vec::new();
        done.push(last);
        proof {
            let ws = words_in(t@, 0, n as int);
            lemma_texts(before);
            lemma_texts(all@);
            lemma_texts(done@);
            assert(all@ == before.drop_last());
            assert(ws.len() == before.len());
            assert forall|k: int| 0 <= k < all@.len() implies texts(all@)[k] == range_texts(
                t@,
                ws.drop_last(),
            )[k] by {
                assert(texts(before)[k] == range_texts(t@, ws)[k]);
            }
            assert(texts(all@) =~= range_texts(t@, ws.drop_last()));
            assert(texts(before)[before.len() - 1] == range_texts(t@, ws)[ws.len() - 1]);
            assert(texts(done@) =~= range_texts(t@, seq![ws.last()]));
        }
        Some(TodoSequence { active: all, done })
    }
}

impl TodoConfig {
    /// Build a config from the `#+TODO:`-family directive values found in a
    /// document, in order. Returns the default config when no directive
    /// yields any keyword.
    pub fn from_directive_values<const N: usize>(values: [&str; N]) -> (r: Self)
        ensures
            r@ == config_from_values(values@.map_values(|v: &str| v.spec_bytes())),
    {
        Self::from_directive_slice(&values)
    }

    /// [`TodoConfig::from_directive_values`] over a slice of values.
    pub fn from_directive_slice(values: &[&str]) -> (r: Self)
        ensures
            r@ == config_from_values(values@.map_values(|v: &str| v.spec_bytes())),
    {
        let ghost vals = values@.map_values(|v: &str| v.spec_bytes());
        let mut sequences: Vec<TodoSequence> = Vec::new();
        let mut i: usize = 0;
        while i < values.len()
            invariant
                i <= values@.len(),
                vals == values@.map_values(|v: &str| v.spec_bytes()),
                sequences@.map_values(|s: TodoSequence| s@) == directive_sequences(
                    vals.take(i as int),
                ),
            decreases values@.len() - i,
        {
            let parsed = parse_directive_value(values[i]);
            proof {
                let tk = vals.take(i + 1);
                assert(tk.drop_last() =~= vals.take(i as int));
                assert(tk.last() == values@[i as int].spec_bytes());
            }
            match parsed {
                Some(sq) => {
                    let ghost prev = sequences@;
                    sequences.push(sq);
                    proof {
                        assert(sequences@.map_values(|s: TodoSequence| s@) =~= prev.map_values(
                            |s: TodoSequence| s@,
                        ).push(sq@));
                    }
                },
                None => {},
            }
            i = i + 1;
        }
        proof {
            assert(vals.take(i as int) =~= vals);
        }
        if sequences.len() == 0 {
            TodoConfig::default()
        } else {
            TodoConfig { sequences }
        }
    }

    /// Look up a keyword (case-sensitive, exact). Returns its done-class, or
    /// `None` when the word is not a configured keyword.
    pub fn classify(&self, keyword: &str) -> (r: Option<bool>)
        ensures
            r == classify_in(self@, keyword@),
    {
        let mut i: usize = 0;
        proof {
            assert(self@.skip(0) =~= self@);
        }
        while i < self.sequences.len()
            invariant
                i <= self@.len(),
                self@.len() == self.sequences@.len(),
                classify_in(self@, keyword@) == classify_in(self@.skip(i as int), keyword@),
            decreases self@.len() - i,
        {
            let sq = &self.sequences[i];
            proof {
                assert(self@.skip(i as int)[0] == sq@);
                assert(self@.skip(i as int).drop_first() =~= self@.skip(i + 1));
            }
            if position_of(&sq.active, keyword).is_some() {
                return Some(false);
            }
            if position_of(&sq.done, keyword).is_some() {
                return Some(true);
            }
            i = i + 1;
        }
        proof {
            assert(self@.skip(i as int).len() == 0);
        }
        None
    }

    /// Advance one step through the cycling order: `next(None)` starts the
    /// cycle at the first keyword of the first sequence; `next(Some(k))`
    /// advances within the sequence containing `k`, wrapping from the last
    /// keyword to the first; an unconfigured keyword yields `None`.
    pub fn next(&self, current: Option<&str>) -> (r: Option<&str>)
        ensures
            match current {
                None => match first_keyword(self@) {
                    Some(k) => r matches Some(s) && s@ == k,
                    None => r is None,
                },
                Some(c) => match next_in(self@, c@) {
                    Some(k) => r matches Some(s) && s@ == k,
                    None => r is None,
                },
            },
    {
        let cur = match current {
            None => {
                if self.sequences.len() == 0 {
                    return None;
                }
                let sq = &self.sequences[0];
                if sq.active.len() > 0 {
                    return Some(sq.active[0].as_str());
                }
                if sq.done.len() > 0 {
                    return Some(sq.done[0].as_str());
                }
                return None;
            },
            Some(c) => c,
        };
        let mut i: usize = 0;
        proof {
            assert(self@.skip(0) =~= self@);
        }
        while i < self.sequences.len()
            invariant
                i <= self@.len(),
                self@.len() == self.sequences@.len(),
                current == Some(cur),
                next_in(self@, cur@) == next_in(self@.skip(i as int), cur@),
            decreases self@.len() - i,
        {
            let sq = &self.sequences[i];
            proof {
                assert(self@.skip(i as int)[0] == sq@);
                assert(self@.skip(i as int).drop_first() =~= self@.skip(i + 1));
                lemma_first_index_concat(sq@.0, sq@.1, cur@);
                lemma_first_index_from(sq@.0, cur@, 0);
                lemma_first_index_from(sq@.1, cur@, 0);
                lemma_texts(sq.active@);
                lemma_texts(sq.done@);
            }
            let na = sq.active.len();
            let nd = sq.done.len();
            match position_of(&sq.active, cur) {
                Some(p) => {
                    proof {
                        let ks = seq_keywords(sq@);
                        assert(ks.len() == na + nd);
                        assert(ks[p as int] == cur@);
                    }
                    if p + 1 < na {
                        proof {
                            vstd::arithmetic::div_mod::lemma_small_mod((p + 1) as nat, (na + nd) as nat);
                        }
                        return Some(sq.active[p + 1].as_str());
                    } else if nd > 0 {
                        proof {
                            vstd::arithmetic::div_mod::lemma_small_mod((p + 1) as nat, (na + nd) as nat);
                        }
                        return Some(sq.done[0].as_str());
                    } else {
                        proof {
                            vstd::arithmetic::div_mod::lemma_mod_self_0((na + nd) as int);
                        }
                        return Some(sq.active[0].as_str());
                    }
                },
                None => {},
            }
            match position_of(&sq.done, cur) {
                Some(p) => {
                    proof {
                        let ks = seq_keywords(sq@);
                        assert(ks.len() == na + nd);
                        assert(ks[na + p] == cur@);
                    }
                    if p + 1 < nd {
                        proof {
                            vstd::arithmetic::div_mod::lemma_small_mod((na + p + 1) as nat, (na + nd) as nat);
                        }
                        return Some(sq.done[p + 1].as_str());
                    } else if na > 0 {
                        proof {
                            vstd::arithmetic::div_mod::lemma_mod_self_0((na + nd) as int);
                        }
                        return Some(sq.active[0].as_str());
                    } else {
                        proof {
                            vstd::arithmetic::div_mod::lemma_mod_self_0((na + nd) as int);
                        }
                        return Some(sq.done[0].as_str());
                    }
                },
                None => {},
            }
            i = i + 1;
        }
        proof {
            assert(self@.skip(i as int).len() == 0);
        }
        None
    }

    /// All configured keywords across all sequences, in declaration order.
    pub fn keywords(&self) -> (r: Vec<String>)
        ensures
            texts(r@) == all_keywords(self@),
    {
        let mut out: Vec<String> = Vec::new();
        let mut i: usize = 0;
        proof {
            lemma_texts(out@);
            assert(self@.take(0) =~= seq![]);
        }
        while i < self.sequences.len()
            invariant
                i <= self@.len(),
                self@.len() == self.sequences@.len(),
                texts(out@) == all_keywords(self@.take(i as int)),
            decreases self@.len() - i,
        {
            let mut ks = self.sequences[i].keywords();
            let ghost prev = out@;
            let ghost ks0 = ks@;
            out.append(&mut ks);
            proof {
                let tk = self@.take(i + 1);
                assert(tk.drop_last() =~= self@.take(i as int));
                assert(tk.last() == self.sequences@[i as int]@);
                lemma_texts(out@);
                lemma_texts(prev);
                assert(out@ == prev + ks0);
                lemma_texts(ks0);
                assert(texts(out@) =~= texts(prev) + texts(ks0));
            }
            i = i + 1;
        }
        proof {
            assert(self@.take(i as int) =~= self@);
        }
        out
    }
}

proof fn lemma_first_index_concat(a: Seq<Seq<char>>, b: Seq<Seq<char>>, x: Seq<char>)
    ensures
        first_index_from(a, x, 0) >= 0 ==> first_index_from(a + b, x, 0) == first_index_from(a, x, 0),
        first_index_from(a, x, 0) == -1 && first_index_from(b, x, 0) >= 0 ==> first_index_from(a + b, x, 0) == a.len() + first_index_from(b, x, 0),
        first_index_from(a, x, 0) == -1 && first_index_from(b, x, 0) == -1 ==> first_index_from(a + b, x, 0) == -1,
{
    lemma_first_index_from(a, x, 0);
    lemma_first_index_from(b, x, 0);
    lemma_first_index_from(a + b, x, 0);
    let c = a + b;
    let fa = first_index_from(a, x, 0);
    let fb = first_index_from(b, x, 0);
    let fc = first_index_from(c, x, 0);
    if fa >= 0 {
        assert(c[fa] == x);
        if fc >= 0 && fc < fa {
            assert(c[fc] == a[fc]);
        }
        if fc > fa || fc == -1 {
            assert(c[fa] == x);
        }
    } else if fb >= 0 {
        assert(c[a.len() + fb] == x);
        if fc >= 0 && fc < a.len() {
            assert(c[fc] == a[fc]);
        } else if fc >= a.len() && fc < a.len() + fb {
            assert(c[fc] == b[fc - a.len()]);
        }
    } else {
        if fc >= 0 {
            if fc < a.len() {
                assert(c[fc] == a[fc]);
            } else {
                assert(c[fc] == b[fc - a.len()]);
            }
        }
    }
}

/// A keyword has a successor in the cycle exactly when it is a configured
/// keyword: `next` and `classify` agree on what the configuration knows.
pub proof fn lemma_next_defined_iff_classified(seqs: Seq<(Seq<Seq<char>>, Seq<Seq<char>>)>, k: Seq<char>)
    ensures
        next_in(seqs, k) is Some <==> classify_in(seqs, k) is Some,
    decreases seqs.len(),
{
    if seqs.len() > 0 {
        lemma_first_index_concat(seqs[0].0, seqs[0].1, k);
        lemma_first_index_from(seqs[0].0, k, 0);
        lemma_first_index_from(seqs[0].1, k, 0);
        lemma_next_defined_iff_classified(seqs.drop_first(), k);
    }
}

/// Cycling never leaves the sequence a keyword belongs to: the successor of
/// `k` is a keyword of the first sequence that lists `k`.
pub proof fn lemma_next_stays_in_sequence(seqs: Seq<(Seq<Seq<char>>, Seq<Seq<char>>)>, k: Seq<char>)
    ensures
        next_in(seqs, k) matches Some(n) ==> exists|i: int|
            0 <= i < seqs.len() && seq_keywords(#[trigger] seqs[i]).contains(k) && seq_keywords(
                seqs[i],
            ).contains(n),
    decreases seqs.len(),
{
    if seqs.len() > 0 {
        let ks = seq_keywords(seqs[0]);
        let pos = first_index_from(ks, k, 0);
        lemma_first_index_from(ks, k, 0);
        if pos >= 0 {
            let j = (pos + 1) % (ks.len() as int);
            assert(0 <= j < ks.len());
            assert(ks[pos] == k);
            assert(ks.contains(k));
            assert(ks.contains(ks[j]));
        } else {
            lemma_next_stays_in_sequence(seqs.drop_first(), k);
            if let Some(n) = next_in(seqs, k) {
                let i = choose|i: int|
                    0 <= i < seqs.drop_first().len() && seq_keywords(
                        #[trigger] seqs.drop_first()[i],
                    ).contains(k) && seq_keywords(seqs.drop_first()[i]).contains(n);
                assert(seqs[i + 1] == seqs.drop_first()[i]);
            }
        }
    }
}

/// Every sequence in `seqs` names at least one keyword.
pub open spec fn sequences_nonempty(seqs: Seq<(Seq<Seq<char>>, Seq<Seq<char>>)>) -> bool {
    forall|i: int| 0 <= i < seqs.len() ==> #[trigger] seqs[i].0.len() + seqs[i].1.len() >= 1
}

proof fn lemma_directive_sequences_nonempty(vals: Seq<Seq<u8>>)
    ensures
        sequences_nonempty(directive_sequences(vals)),
    decreases vals.len(),
{
    if vals.len() > 0 {
        lemma_directive_sequences_nonempty(vals.drop_last());
        let prev = directive_sequences(vals.drop_last());
        let all = directive_sequences(vals);
        assert forall|i: int| 0 <= i < all.len() implies #[trigger] all[i].0.len() + all[i].1.len()
            >= 1 by {
            if i < prev.len() {
                assert(all[i] == prev[i]);
            }
        }
    }
}

proof fn lemma_all_keywords_cover_last(seqs: Seq<(Seq<Seq<char>>, Seq<Seq<char>>)>)
    requires
        seqs.len() >= 1,
    ensures
        all_keywords(seqs).len() >= seqs.last().0.len() + seqs.last().1.len(),
{
}

/// Directive values never leave a document without keywords: the resolved
/// configuration has at least one sequence, every sequence names at least
/// one keyword, and the keyword list has a first entry.
pub proof fn lemma_config_never_empty(vals: Seq<Seq<u8>>)
    ensures
        config_from_values(vals).len() >= 1,
        sequences_nonempty(config_from_values(vals)),
        all_keywords(config_from_values(vals)).len() >= 1,
{
    lemma_directive_sequences_nonempty(vals);
    let c = config_from_values(vals);
    assert(sequences_nonempty(default_sequences()));
    lemma_all_keywords_cover_last(c);
    assert(c.last() == c[c.len() - 1]);
}

} // verus!
