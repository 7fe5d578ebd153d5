//! Byte-level text primitives shared by every scanner in the crate.
//!
//! All org text is handled as the UTF-8 bytes of a `&str`. Offsets are byte
//! offsets, exactly as spans are recorded. Whitespace follows Rust's
//! `char::is_whitespace` (the Unicode `White_Space` property), recognised
//! here by the UTF-8 encodings of those code points.
use vstd::prelude::*;
use vstd::string::{StringExecFns, StringSliceAdditionalSpecFns};
use vstd::utf8::encode_utf8;

verus! {

/// The text `String::from_utf8_lossy` produces for `bytes`.
pub uninterp spec fn utf8_lossy(bytes: Seq<u8>) -> Seq<char>;

/// `String::from_utf8_lossy(bytes).into_owned()`: the text of `bytes`; on
/// valid UTF-8 it is exactly the decoded characters (the standard library
/// documents that valid input is returned unchanged).
#[verifier::external_body]
fn lossy_string(bytes: &[u8]) -> (r: String)
    ensures
        r@ == utf8_lossy(bytes@),
        vstd::utf8::valid_utf8(bytes@) ==> r@ == vstd::utf8::decode_utf8(bytes@),
{
    String::from_utf8_lossy(bytes).into_owned()
}

/// The text of `bytes`: the decoded characters of valid UTF-8, the lossy
/// decoding otherwise.
#[verifier::opaque]
pub open spec fn decoded(bytes: Seq<u8>) -> Seq<char> {
    if vstd::utf8::valid_utf8(bytes) {
        vstd::utf8::decode_utf8(bytes)
    } else {
        utf8_lossy(bytes)
    }
}

/// The text of `s[a..b)` as an owned string.
pub fn substring(s: &[u8], a: usize, b: usize) -> (r: String)
    requires
        a <= b <= s@.len(),
    ensures
        r@ == decoded(s@.subrange(a as int, b as int)),
{
    let sub = vstd::slice::slice_subrange(s, a, b);
    proof {
        reveal(decoded);
    }
    lossy_string(sub)
}

/// Lexicographic byte order from position `i` on: `a[i..] < b[i..]` as
/// `[u8]`'s `<` orders them (a proper prefix comes first).
pub open spec fn lex_lt_at(a: Seq<u8>, b: Seq<u8>, i: nat) -> bool
    decreases a.len() - i,
{
    if i >= a.len() {
        i < b.len()
    } else if i >= b.len() {
        false
    } else if a[i as int] != b[i as int] {
        a[i as int] < b[i as int]
    } else {
        lex_lt_at(a, b, i + 1)
    }
}

/// `a < b` on byte strings.
pub open spec fn lex_lt(a: Seq<u8>, b: Seq<u8>) -> bool {
    lex_lt_at(a, b, 0)
}

/// `a < b` on `str`: the byte order of their UTF-8 encodings.
pub open spec fn str_lt(a: Seq<char>, b: Seq<char>) -> bool {
    lex_lt(encode_utf8(a), encode_utf8(b))
}

/// Nothing comes before itself.
pub proof fn lemma_lex_irreflexive(a: Seq<u8>, i: nat)
    ensures
        !lex_lt_at(a, a, i),
    decreases a.len() - i,
{
    if i < a.len() {
        lemma_lex_irreflexive(a, i + 1);
    }
}

/// Of two byte strings, at most one comes first.
pub proof fn lemma_lex_asymmetric(a: Seq<u8>, b: Seq<u8>, i: nat)
    ensures
        lex_lt_at(a, b, i) ==> !lex_lt_at(b, a, i),
    decreases a.len() - i,
{
    if i < a.len() && i < b.len() && a[i as int] == b[i as int] {
        lemma_lex_asymmetric(a, b, i + 1);
    }
}

/// "Not after" is transitive: `a <= b` and `b <= c` give `a <= c`.
pub proof fn lemma_lex_le_transitive(a: Seq<u8>, b: Seq<u8>, c: Seq<u8>, i: nat)
    ensures
        !lex_lt_at(b, a, i) && !lex_lt_at(c, b, i) ==> !lex_lt_at(c, a, i),
    decreases a.len() - i,
{
    if i < a.len() && i < b.len() && i < c.len() && a[i as int] == b[i as int] && b[i as int]
        == c[i as int] {
        lemma_lex_le_transitive(a, b, c, i + 1);
    }
}

/// `a < b` on `str`, compared byte by byte.
pub fn str_less(a: &str, b: &str) -> (r: bool)
    ensures
        r == str_lt(a@, b@),
{
    let x = a.as_bytes();
    let y = b.as_bytes();
    let mut i: usize = 0;
    while i < x.len() && i < y.len()
        invariant
            i <= x@.len(),
            i <= y@.len(),
            x@ == encode_utf8(a@),
            y@ == encode_utf8(b@),
            lex_lt_at(x@, y@, 0) == lex_lt_at(x@, y@, i as nat),
        decreases x@.len() - i,
    {
        if x[i] != y[i] {
            return x[i] < y[i];
        }
        i = i + 1;
    }
    i < y.len()
}

/// Width in bytes of a whitespace character encoded at `s[i]`, or 0.
pub open spec fn ws_width(s: Seq<u8>, i: int) -> int {
    if 0 <= i < s.len() {
        let b0 = s[i];
        if b0 == 9 || b0 == 10 || b0 == 11 || b0 == 12 || b0 == 13 || b0 == 32 {
            1
        } else if b0 == 0xC2 && i + 1 < s.len() && (s[i + 1] == 0x85 || s[i + 1] == 0xA0) {
            2
        } else if b0 == 0xE1 && i + 2 < s.len() && s[i + 1] == 0x9A && s[i + 2] == 0x80 {
            3
        } else if b0 == 0xE2 && i + 2 < s.len() && ((s[i + 1] == 0x80 && ((0x80 <= s[i + 2]
            && s[i + 2] <= 0x8A) || s[i + 2] == 0xA8 || s[i + 2] == 0xA9 || s[i + 2] == 0xAF)) || (
        s[i + 1] == 0x81 && s[i + 2] == 0x9F)) {
            3
        } else if b0 == 0xE3 && i + 2 < s.len() && s[i + 1] == 0x80 && s[i + 2] == 0x80 {
            3
        } else {
            0
        }
    } else {
        0
    }
}

/// Width in bytes of a whitespace character whose encoding ends at `s[e]`
/// (exclusive), or 0.
pub open spec fn ws_width_before(s: Seq<u8>, e: int) -> int {
    if e >= 1 && ws_width(s, e - 1) == 1 {
        1
    } else if e >= 2 && ws_width(s, e - 2) == 2 {
        2
    } else if e >= 3 && ws_width(s, e - 3) == 3 {
        3
    } else {
        0
    }
}

/// Whether a whitespace character starts at `i` and ends within `hi`.
pub open spec fn ws_in(s: Seq<u8>, i: int, hi: int) -> bool {
    ws_width(s, i) > 0 && i + ws_width(s, i) <= hi
}

/// First offset at or after `i` (up to `hi`) that does not start a
/// whitespace character: the start of `s[i..hi).trim_start()`.
pub open spec fn skip_ws(s: Seq<u8>, i: int, hi: int) -> int
    decreases hi - i,
{
    if i < hi && ws_in(s, i, hi) {
        skip_ws(s, i + ws_width(s, i), hi)
    } else {
        i
    }
}

/// End of `s[lo..e).trim_end()`.
pub open spec fn trim_end_at(s: Seq<u8>, lo: int, e: int) -> int
    decreases e - lo,
{
    if e > lo && ws_width_before(s, e) > 0 && e - ws_width_before(s, e) >= lo {
        trim_end_at(s, lo, e - ws_width_before(s, e))
    } else {
        e
    }
}

/// First offset at or after `i` (up to `hi`) where a whitespace character
/// starts, or `hi`.
pub open spec fn next_ws(s: Seq<u8>, i: int, hi: int) -> int
    decreases hi - i,
{
    if i >= hi {
        hi
    } else if ws_in(s, i, hi) {
        i
    } else {
        next_ws(s, i + 1, hi)
    }
}

/// The `split_whitespace` tokens of `s[i..hi)`, as byte ranges.
pub open spec fn ws_tokens(s: Seq<u8>, i: int, hi: int) -> Seq<(int, int)>
    decreases hi - i,
{
    let a = skip_ws(s, i, hi);
    if a >= hi || a < i {
        seq![]
    } else {
        let b = next_ws(s, a, hi);
        if b <= a || b > hi {
            seq![]
        } else {
            seq![(a, b)] + ws_tokens(s, b, hi)
        }
    }
}

pub proof fn lemma_skip_ws_bounds(s: Seq<u8>, i: int, hi: int)
    ensures
        i <= hi ==> i <= skip_ws(s, i, hi) <= hi,
        i > hi ==> skip_ws(s, i, hi) == i,
    decreases hi - i,
{
    if i < hi && ws_in(s, i, hi) {
        lemma_skip_ws_bounds(s, i + ws_width(s, i), hi);
    }
}

pub proof fn lemma_trim_end_bounds(s: Seq<u8>, lo: int, e: int)
    ensures
        lo <= e ==> lo <= trim_end_at(s, lo, e) <= e,
    decreases e - lo,
{
    if e > lo && ws_width_before(s, e) > 0 && e - ws_width_before(s, e) >= lo {
        lemma_trim_end_bounds(s, lo, e - ws_width_before(s, e));
    }
}

/// `s[a..b)` neither starts nor ends with a whitespace character that lies
/// inside it.
pub open spec fn trimmed_range(s: Seq<u8>, a: int, b: int) -> bool {
    a == b || (!ws_in(s, a, b) && !(ws_width_before(s, b) > 0 && b - ws_width_before(s, b) >= a))
}

proof fn lemma_skip_ws_stops(s: Seq<u8>, i: int, hi: int)
    requires
        i <= hi,
    ensures
        skip_ws(s, i, hi) == hi || !ws_in(s, skip_ws(s, i, hi), hi),
    decreases hi - i,
{
    if i < hi && ws_in(s, i, hi) {
        lemma_skip_ws_stops(s, i + ws_width(s, i), hi);
    }
}

proof fn lemma_trim_end_stops(s: Seq<u8>, lo: int, e: int)
    requires
        lo <= e,
    ensures
        trim_end_at(s, lo, e) == lo || !(ws_width_before(s, trim_end_at(s, lo, e)) > 0
            && trim_end_at(s, lo, e) - ws_width_before(s, trim_end_at(s, lo, e)) >= lo),
    decreases e - lo,
{
    if e > lo && ws_width_before(s, e) > 0 && e - ws_width_before(s, e) >= lo {
        lemma_trim_end_stops(s, lo, e - ws_width_before(s, e));
    }
}

/// Trimming `s[a..b)` leaves a range that neither starts nor ends with
/// whitespace.
pub proof fn lemma_trim_both(s: Seq<u8>, a: int, b: int)
    requires
        a <= b,
    ensures
        a <= skip_ws(s, a, b) <= trim_end_at(s, skip_ws(s, a, b), b) <= b,
        trimmed_range(s, skip_ws(s, a, b), trim_end_at(s, skip_ws(s, a, b), b)),
{
    lemma_skip_ws_bounds(s, a, b);
    lemma_skip_ws_stops(s, a, b);
    let x = skip_ws(s, a, b);
    lemma_trim_end_bounds(s, x, b);
    lemma_trim_end_stops(s, x, b);
}

pub proof fn lemma_next_ws_bounds(s: Seq<u8>, i: int, hi: int)
    ensures
        i <= hi ==> i <= next_ws(s, i, hi) <= hi,
    decreases hi - i,
{
    if i < hi && !ws_in(s, i, hi) {
        lemma_next_ws_bounds(s, i + 1, hi);
    }
}

/// Exec form of [`ws_width`].
pub fn ws_width_at(s: &[u8], i: usize) -> (w: usize)
    ensures
        w == ws_width(s@, i as int),
        w <= 3,
{
    if i >= s.len() {
        return 0;
    }
    let b0 = s[i];
    if b0 == 9 || b0 == 10 || b0 == 11 || b0 == 12 || b0 == 13 || b0 == 32 {
        1
    } else if b0 == 0xC2 && s.len() - i > 1 && (s[i + 1] == 0x85 || s[i + 1] == 0xA0) {
        2
    } else if b0 == 0xE1 && s.len() - i > 2 && s[i + 1] == 0x9A && s[i + 2] == 0x80 {
        3
    } else if b0 == 0xE2 && s.len() - i > 2 && ((s[i + 1] == 0x80 && ((0x80 <= s[i + 2] && s[i
        + 2] <= 0x8A) || s[i + 2] == 0xA8 || s[i + 2] == 0xA9 || s[i + 2] == 0xAF)) || (s[i + 1]
        == 0x81 && s[i + 2] == 0x9F)) {
        3
    } else if b0 == 0xE3 && s.len() - i > 2 && s[i + 1] == 0x80 && s[i + 2] == 0x80 {
        3
    } else {
        0
    }
}

/// Exec form of [`ws_width_before`].
pub fn ws_width_before_at(s: &[u8], e: usize) -> (w: usize)
    requires
        e <= s@.len(),
    ensures
        w == ws_width_before(s@, e as int),
{
    if e >= 1 && ws_width_at(s, e - 1) == 1 {
        1
    } else if e >= 2 && ws_width_at(s, e - 2) == 2 {
        2
    } else if e >= 3 && ws_width_at(s, e - 3) == 3 {
        3
    } else {
        0
    }
}

/// Start of `s[i..hi).trim_start()`.
pub fn skip_ws_at(s: &[u8], i: usize, hi: usize) -> (r: usize)
    requires
        i <= hi <= s@.len(),
    ensures
        r == skip_ws(s@, i as int, hi as int),
        i <= r <= hi,
{
    let mut k = i;
    while k < hi
        invariant
            i <= k <= hi,
            hi <= s@.len(),
            skip_ws(s@, i as int, hi as int) == skip_ws(s@, k as int, hi as int),
        decreases hi - k,
    {
        let w = ws_width_at(s, k);
        if w > 0 && w <= hi - k {
            k = k + w;
        } else {
            return k;
        }
    }
    k
}

/// End of `s[lo..e).trim_end()`.
pub fn trim_end_pos(s: &[u8], lo: usize, e: usize) -> (r: usize)
    requires
        lo <= e <= s@.len(),
    ensures
        r == trim_end_at(s@, lo as int, e as int),
        lo <= r <= e,
{
    let mut k = e;
    while k > lo
        invariant
            lo <= k <= e,
            e <= s@.len(),
            trim_end_at(s@, lo as int, e as int) == trim_end_at(s@, lo as int, k as int),
        decreases k - lo,
    {
        let w = ws_width_before_at(s, k);
        if w > 0 && k - lo >= w {
            k = k - w;
        } else {
            return k;
        }
    }
    k
}

/// First whitespace start in `s[i..hi)`, or `hi`.
pub fn next_ws_at(s: &[u8], i: usize, hi: usize) -> (r: usize)
    requires
        i <= hi <= s@.len(),
    ensures
        r == next_ws(s@, i as int, hi as int),
        i <= r <= hi,
{
    let mut k = i;
    while k < hi
        invariant
            i <= k <= hi,
            hi <= s@.len(),
            next_ws(s@, i as int, hi as int) == next_ws(s@, k as int, hi as int),
        decreases hi - k,
    {
        let w = ws_width_at(s, k);
        if w > 0 && w <= hi - k {
            return k;
        }
        k = k + 1;
    }
    k
}

/// The `split_whitespace` tokens of `s[i..hi)` as byte ranges.
pub fn split_ws(s: &[u8], i: usize, hi: usize) -> (r: Vec<(usize, usize)>)
    requires
        i <= hi <= s@.len(),
    ensures
        r@.len() == ws_tokens(s@, i as int, hi as int).len(),
        forall|k: int|
            0 <= k < r@.len() ==> (#[trigger] r@[k]).0 as int == ws_tokens(
                s@,
                i as int,
                hi as int,
            )[k].0 && r@[k].1 as int == ws_tokens(s@, i as int, hi as int)[k].1,
{
    let mut out: Vec<(usize, usize)> = Vec::new();
    let mut k = i;
    let ghost acc: Seq<(int, int)> = seq![];
    while k < hi
        invariant
            i <= k <= hi,
            hi <= s@.len(),
            out@.len() == acc.len(),
            forall|j: int|
                0 <= j < out@.len() ==> (#[trigger] out@[j]).0 as int == acc[j].0 && out@[j].1
                    as int == acc[j].1,
            ws_tokens(s@, i as int, hi as int) == acc + ws_tokens(s@, k as int, hi as int),
        decreases hi - k,
    {
        let a = skip_ws_at(s, k, hi);
        if a >= hi {
            proof {
                assert(ws_tokens(s@, k as int, hi as int) =~= seq![]);
                assert(ws_tokens(s@, hi as int, hi as int) =~= seq![]);
            }
            k = hi;
            continue;
        }
        let b = next_ws_at(s, a, hi);
        proof {
            lemma_skip_ws_stop(s@, k as int, hi as int);
            assert(!ws_in(s@, a as int, hi as int));
            assert(next_ws(s@, a as int, hi as int) == next_ws(s@, a + 1, hi as int));
            lemma_next_ws_bounds(s@, a + 1, hi as int);
            assert(b > a);
            let t = ws_tokens(s@, k as int, hi as int);
            assert(t == seq![(a as int, b as int)] + ws_tokens(s@, b as int, hi as int));
            assert(acc + t =~= (acc + seq![(a as int, b as int)]) + ws_tokens(
                s@,
                b as int,
                hi as int,
            ));
            acc = acc + seq![(a as int, b as int)];
        }
        out.push((a, b));
        k = b;
    }
    proof {
        assert(k == hi);
        assert(skip_ws(s@, hi as int, hi as int) == hi);
        assert(ws_tokens(s@, k as int, hi as int) =~= seq![]);
        assert(acc + seq![] =~= acc);
    }
    out
}

pub proof fn lemma_skip_ws_stop(s: Seq<u8>, i: int, hi: int)
    requires
        i <= hi,
    ensures
        !(skip_ws(s, i, hi) < hi && ws_in(s, skip_ws(s, i, hi), hi)),
    decreases hi - i,
{
    if i < hi && ws_in(s, i, hi) {
        lemma_skip_ws_stop(s, i + ws_width(s, i), hi);
    }
}

/// `s[i..i + pat.len()) == pat`.
pub open spec fn matches_at(s: Seq<u8>, i: int, pat: Seq<u8>) -> bool {
    0 <= i && i + pat.len() <= s.len() && s.subrange(i, i + pat.len()) == pat
}

/// Exec form of [`matches_at`].
pub fn bytes_match_at(s: &[u8], i: usize, pat: &[u8]) -> (r: bool)
    ensures
        r == matches_at(s@, i as int, pat@),
{
    if i > s.len() || pat.len() > s.len() - i {
        return false;
    }
    let mut k: usize = 0;
    while k < pat.len()
        invariant
            k <= pat@.len(),
            i + pat@.len() <= s@.len(),
            s@.len() == s.len(),
            pat@.len() == pat.len(),
            forall|j: int| 0 <= j < k ==> s@[i + j] == pat@[j],
        decreases pat@.len() - k,
    {
        if s[i + k] != pat[k] {
            proof {
                assert(s@.subrange(i as int, i + pat@.len())[k as int] != pat@[k as int]);
            }
            return false;
        }
        k = k + 1;
    }
    proof {
        assert(s@.subrange(i as int, i + pat@.len()) =~= pat@);
    }
    true
}

/// `s[a..b) == t` as byte sequences.
pub fn bytes_eq_range(s: &[u8], a: usize, b: usize, t: &[u8]) -> (r: bool)
    requires
        a <= b <= s@.len(),
    ensures
        r == (s@.subrange(a as int, b as int) == t@),
{
    if b - a != t.len() {
        proof {
            assert(s@.subrange(a as int, b as int).len() != t@.len());
        }
        return false;
    }
    bytes_match_at(s, a, t)
}

/// Whether `c` is an ASCII decimal digit.
pub open spec fn is_digit(c: u8) -> bool {
    48 <= c <= 57
}

/// Every byte of `s[a..b)` is an ASCII digit.
pub open spec fn all_digits(s: Seq<u8>, a: int, b: int) -> bool {
    forall|k: int| a <= k < b ==> is_digit(#[trigger] s[k])
}

/// The decimal value of the digits `s[a..b)`.
pub open spec fn digits_value(s: Seq<u8>, a: int, b: int) -> int
    decreases b - a,
{
    if b <= a {
        0
    } else {
        digits_value(s, a, b - 1) * 10 + (s[b - 1] - 48)
    }
}

pub proof fn lemma_digits_value_mono(s: Seq<u8>, a: int, k: int, b: int)
    requires
        a <= k <= b,
        all_digits(s, a, b),
    ensures
        digits_value(s, a, k) <= digits_value(s, a, b),
        digits_value(s, a, k) >= 0,
    decreases b - k,
{
    if k < b {
        lemma_digits_value_mono(s, a, k, b - 1);
        lemma_digits_nonneg(s, a, b - 1);
    } else {
        lemma_digits_nonneg(s, a, b);
    }
}

pub proof fn lemma_digits_nonneg(s: Seq<u8>, a: int, b: int)
    requires
        all_digits(s, a, b),
    ensures
        digits_value(s, a, b) >= 0,
    decreases b - a,
{
    if b > a {
        lemma_digits_nonneg(s, a, b - 1);
    }
}

/// The unsigned value `str::parse` yields for `s[a..b)` when it is a
/// non-empty run of ASCII digits not exceeding `max`.
pub open spec fn digits_up_to(s: Seq<u8>, a: int, b: int, max: int) -> Option<int> {
    if a < b && all_digits(s, a, b) && digits_value(s, a, b) <= max {
        Some(digits_value(s, a, b))
    } else {
        None
    }
}

pub proof fn lemma_digits_up_to(s: Seq<u8>, a: int, b: int, max: int)
    ensures
        digits_up_to(s, a, b, max) matches Some(v) ==> 0 <= v <= max,
{
    if a < b && all_digits(s, a, b) {
        lemma_digits_nonneg(s, a, b);
    }
}

/// Parsed numbers stay within the bounds of their type.
pub proof fn lemma_parse_bounds(s: Seq<u8>, a: int, b: int, pos_max: int, neg_max: int)
    requires
        pos_max >= 0,
        neg_max >= 0,
    ensures
        parse_u32_spec(s, a, b) matches Some(v) ==> 0 <= v <= 0xFFFF_FFFF,
        parse_signed_spec(s, a, b, pos_max, neg_max) matches Some(v) ==> -neg_max <= v <= pos_max,
{
    lemma_digits_up_to(s, a + 1, b, 0xFFFF_FFFF);
    lemma_digits_up_to(s, a, b, 0xFFFF_FFFF);
    lemma_digits_up_to(s, a + 1, b, neg_max);
    lemma_digits_up_to(s, a + 1, b, pos_max);
    lemma_digits_up_to(s, a, b, pos_max);
}

/// Parse the non-empty digit run `s[a..b)`, rejecting values above `max`.
pub fn parse_digits(s: &[u8], a: usize, b: usize, max: u64) -> (r: Option<u64>)
    requires
        a <= b <= s@.len(),
    ensures
        r is Some <==> digits_up_to(s@, a as int, b as int, max as int) is Some,
        r matches Some(v) ==> v as int == digits_value(s@, a as int, b as int) && v <= max,
{
    if a >= b {
        return None;
    }
    let mut v: u128 = 0;
    let mut k = a;
    while k < b
        invariant
            a <= k <= b <= s@.len(),
            all_digits(s@, a as int, k as int),
            v as int == digits_value(s@, a as int, k as int),
            v <= max,
        decreases b - k,
    {
        let c = s[k];
        if c < 48 || c > 57 {
            proof {
                assert(!is_digit(s@[k as int]));
            }
            return None;
        }
        let nv = v * 10 + (c - 48) as u128;
        proof {
            assert(digits_value(s@, a as int, k + 1) == digits_value(s@, a as int, k as int) * 10
                + (s@[k as int] - 48));
        }
        if nv > max as u128 {
            proof {
                // the value can only grow with further digits (or the run is invalid)
                if all_digits(s@, a as int, b as int) {
                    lemma_digits_value_mono(s@, a as int, k + 1, b as int);
                }
            }
            return None;
        }
        v = nv;
        k = k + 1;
    }
    Some(v as u64)
}

/// `str::parse::<u32>` on `s[a..b)`: an optional `+`, then digits.
pub open spec fn parse_u32_spec(s: Seq<u8>, a: int, b: int) -> Option<int> {
    let a2 = if a < b && s[a] == 43 {
        a + 1
    } else {
        a
    };
    digits_up_to(s, a2, b, 0xFFFF_FFFF)
}

/// Exec form of [`parse_u32_spec`].
pub fn parse_u32_range(s: &[u8], a: usize, b: usize) -> (r: Option<u32>)
    requires
        a <= b <= s@.len(),
    ensures
        match parse_u32_spec(s@, a as int, b as int) {
            Some(v) => r == Some(v as u32),
            None => r is None,
        },
{
    let a2 = if a < b && s[a] == 43 {
        a + 1
    } else {
        a
    };
    match parse_digits(s, a2, b, 0xFFFF_FFFF) {
        Some(v) => {
            assert(v <= 0xFFFF_FFFF);
            Some(v as u32)
        },
        None => None,
    }
}

/// `str::parse` for a signed type whose magnitude bound is `neg_max` for
/// negative and `pos_max` for non-negative values: an optional sign, then
/// digits.
pub open spec fn parse_signed_spec(s: Seq<u8>, a: int, b: int, pos_max: int, neg_max: int) -> Option<int> {
    if a < b && s[a] == 45 {
        match digits_up_to(s, a + 1, b, neg_max) {
            Some(v) => Some(-v),
            None => None,
        }
    } else {
        let a2 = if a < b && s[a] == 43 {
            a + 1
        } else {
            a
        };
        digits_up_to(s, a2, b, pos_max)
    }
}

/// `str::parse::<i32>` on `s[a..b)`.
pub fn parse_i32_range(s: &[u8], a: usize, b: usize) -> (r: Option<i32>)
    requires
        a <= b <= s@.len(),
    ensures
        match parse_signed_spec(s@, a as int, b as int, 0x7FFF_FFFF, 0x8000_0000) {
            Some(v) => r == Some(v as i32),
            None => r is None,
        },
{
    if a < b && s[a] == 45 {
        match parse_digits(s, a + 1, b, 0x8000_0000) {
            Some(v) => {
                assert(v <= 0x8000_0000);
                let n: i64 = v as i64;
                Some((0 - n) as i32)
            },
            None => None,
        }
    } else {
        let a2 = if a < b && s[a] == 43 {
            a + 1
        } else {
            a
        };
        match parse_digits(s, a2, b, 0x7FFF_FFFF) {
            Some(v) => {
                assert(v <= 0x7FFF_FFFF);
                Some(v as i32)
            },
            None => None,
        }
    }
}

/// `str::parse::<i64>` on `s[a..b)`.
pub fn parse_i64_range(s: &[u8], a: usize, b: usize) -> (r: Option<i64>)
    requires
        a <= b <= s@.len(),
    ensures
        match parse_signed_spec(
            s@,
            a as int,
            b as int,
            0x7FFF_FFFF_FFFF_FFFF,
            0x8000_0000_0000_0000,
        ) {
            Some(v) => r == Some(v as i64),
            None => r is None,
        },
{
    if a < b && s[a] == 45 {
        match parse_digits(s, a + 1, b, 0x8000_0000_0000_0000) {
            Some(v) => {
                assert(v <= 0x8000_0000_0000_0000);
                if v == 0x8000_0000_0000_0000 {
                    Some(i64::MIN)
                } else {
                    let n: i64 = v as i64;
                    Some(0 - n)
                }
            },
            None => None,
        }
    } else {
        let a2 = if a < b && s[a] == 43 {
            a + 1
        } else {
            a
        };
        match parse_digits(s, a2, b, 0x7FFF_FFFF_FFFF_FFFF) {
            Some(v) => {
                assert(v <= 0x7FFF_FFFF_FFFF_FFFF);
                Some(v as i64)
            },
            None => None,
        }
    }
}

/// First offset `k` in `[i, hi)` with `s[k] == c`, or `hi` when none.
pub open spec fn find_byte(s: Seq<u8>, i: int, hi: int, c: u8) -> int
    decreases hi - i,
{
    if i >= hi {
        hi
    } else if s[i] == c {
        i
    } else {
        find_byte(s, i + 1, hi, c)
    }
}

pub proof fn lemma_find_byte(s: Seq<u8>, i: int, hi: int, c: u8)
    requires
        i <= hi,
    ensures
        i <= find_byte(s, i, hi, c) <= hi,
        find_byte(s, i, hi, c) < hi ==> s[find_byte(s, i, hi, c)] == c,
        forall|k: int| i <= k < find_byte(s, i, hi, c) ==> s[k] != c,
    decreases hi - i,
{
    if i < hi && s[i] != c {
        lemma_find_byte(s, i + 1, hi, c);
    }
}

/// Exec form of [`find_byte`].
pub fn find_byte_at(s: &[u8], i: usize, hi: usize, c: u8) -> (r: usize)
    requires
        i <= hi <= s@.len(),
    ensures
        r == find_byte(s@, i as int, hi as int, c),
        i <= r <= hi,
{
    let mut k = i;
    while k < hi
        invariant
            i <= k <= hi <= s@.len(),
            find_byte(s@, i as int, hi as int, c) == find_byte(s@, k as int, hi as int, c),
        decreases hi - k,
    {
        if s[k] == c {
            return k;
        }
        k = k + 1;
    }
    k
}

/// Last offset `k` in `[lo, e)` with `s[k] == c`, or `-1`... expressed as
/// `lo - 1` when none.
pub open spec fn rfind_byte(s: Seq<u8>, lo: int, e: int, c: u8) -> int
    decreases e - lo,
{
    if e <= lo {
        lo - 1
    } else if s[e - 1] == c {
        e - 1
    } else {
        rfind_byte(s, lo, e - 1, c)
    }
}

pub proof fn lemma_rfind_byte(s: Seq<u8>, lo: int, e: int, c: u8)
    requires
        lo <= e,
    ensures
        lo - 1 <= rfind_byte(s, lo, e, c) < e,
        rfind_byte(s, lo, e, c) >= lo ==> s[rfind_byte(s, lo, e, c)] == c,
        forall|k: int| rfind_byte(s, lo, e, c) < k < e && lo <= k ==> s[k] != c,
    decreases e - lo,
{
    if e > lo && s[e - 1] != c {
        lemma_rfind_byte(s, lo, e - 1, c);
    }
}

/// Exec form of [`rfind_byte`]: `Some(k)` for the last match, else `None`.
pub fn rfind_byte_at(s: &[u8], lo: usize, e: usize, c: u8) -> (r: Option<usize>)
    requires
        lo <= e <= s@.len(),
    ensures
        match r {
            Some(k) => k as int == rfind_byte(s@, lo as int, e as int, c) && k >= lo,
            None => rfind_byte(s@, lo as int, e as int, c) == lo - 1,
        },
{
    let mut k = e;
    while k > lo
        invariant
            lo <= k <= e <= s@.len(),
            rfind_byte(s@, lo as int, e as int, c) == rfind_byte(s@, lo as int, k as int, c),
        decreases k - lo,
    {
        if s[k - 1] == c {
            return Some(k - 1);
        }
        k = k - 1;
    }
    None
}

/// ASCII letters and digits (`u8::is_ascii_alphanumeric`).
pub open spec fn is_ascii_alnum(c: u8) -> bool {
    (48 <= c <= 57) || (65 <= c <= 90) || (97 <= c <= 122)
}

pub fn ascii_alnum(c: u8) -> (r: bool)
    ensures
        r == is_ascii_alnum(c),
{
    (48 <= c && c <= 57) || (65 <= c && c <= 90) || (97 <= c && c <= 122)
}

/// ASCII lowercase of one byte.
pub open spec fn ascii_lower(c: u8) -> u8 {
    if 65 <= c <= 90 {
        (c + 32) as u8
    } else {
        c
    }
}

/// `eq_ignore_ascii_case` on byte sequences.
pub open spec fn eq_ignore_case(a: Seq<u8>, b: Seq<u8>) -> bool {
    a.len() == b.len() && forall|k: int| 0 <= k < a.len() ==> ascii_lower(#[trigger] a[k])
        == ascii_lower(b[k])
}

/// `s[a..e).eq_ignore_ascii_case(t)`.
pub fn eq_ignore_case_range(s: &[u8], a: usize, e: usize, t: &[u8]) -> (r: bool)
    requires
        a <= e <= s@.len(),
    ensures
        r == eq_ignore_case(s@.subrange(a as int, e as int), t@),
{
    if e - a != t.len() {
        return false;
    }
    let mut k: usize = 0;
    while k < t.len()
        invariant
            k <= t@.len(),
            e - a == t@.len(),
            a <= e <= s@.len(),
            forall|j: int|
                0 <= j < k ==> ascii_lower(#[trigger] s@.subrange(a as int, e as int)[j])
                    == ascii_lower(t@[j]),
        decreases t@.len() - k,
    {
        let x = s[a + k];
        let y = t[k];
        let lx = if 65 <= x && x <= 90 {
            x + 32
        } else {
            x
        };
        let ly = if 65 <= y && y <= 90 {
            y + 32
        } else {
            y
        };
        if lx != ly {
            proof {
                assert(s@.subrange(a as int, e as int)[k as int] == x);
            }
            return false;
        }
        proof {
            assert(s@.subrange(a as int, e as int)[k as int] == x);
        }
        k = k + 1;
    }
    true
}

/// The ASCII digit for `v` (0..=9).
pub open spec fn digit_char(v: int) -> char {
    (48 + v) as char
}

/// Decimal digits of `v`, without leading zeros.
pub open spec fn decimal(v: nat) -> Seq<char>
    decreases v,
{
    if v < 10 {
        seq![digit_char(v as int)]
    } else {
        decimal(v / 10) + seq![digit_char((v % 10) as int)]
    }
}

pub fn digit_str(v: u64) -> (r: &'static str)
    requires
        v < 10,
    ensures
        r@ == seq![digit_char(v as int)],
{
    if v == 0 {
        proof {
            reveal_strlit("0");
        }
        "0"
    } else if v == 1 {
        proof {
            reveal_strlit("1");
        }
        "1"
    } else if v == 2 {
        proof {
            reveal_strlit("2");
        }
        "2"
    } else if v == 3 {
        proof {
            reveal_strlit("3");
        }
        "3"
    } else if v == 4 {
        proof {
            reveal_strlit("4");
        }
        "4"
    } else if v == 5 {
        proof {
            reveal_strlit("5");
        }
        "5"
    } else if v == 6 {
        proof {
            reveal_strlit("6");
        }
        "6"
    } else if v == 7 {
        proof {
            reveal_strlit("7");
        }
        "7"
    } else if v == 8 {
        proof {
            reveal_strlit("8");
        }
        "8"
    } else {
        proof {
            reveal_strlit("9");
        }
        "9"
    }
}

/// Append the decimal digits of `v`.
pub fn push_decimal(out: &mut String, v: u64)
    ensures
        final(out)@ == old(out)@ + decimal(v as nat),
    decreases v,
{
    if v >= 10 {
        push_decimal(out, v / 10);
        out.append(digit_str(v % 10));
        proof {
            assert(old(out)@ + decimal((v / 10) as nat) + seq![digit_char((v % 10) as int)]
                =~= old(out)@ + decimal(v as nat));
        }
    } else {
        out.append(digit_str(v));
    }
}

/// Decimal text of a signed value (a leading `-` when negative).
pub open spec fn int_text(v: int) -> Seq<char> {
    if v < 0 {
        seq!['-'] + decimal((-v) as nat)
    } else {
        decimal(v as nat)
    }
}

/// `v.to_string()` for an `i64`.
pub fn i64_string(v: i64) -> (r: String)
    ensures
        r@ == int_text(v as int),
{
    let mut out = String::new();
    if v < 0 {
        proof {
            reveal_strlit("-");
        }
        out.append("-");
        let m: u64 = if v == i64::MIN {
            0x8000_0000_0000_0000u64
        } else {
            (0 - v) as u64
        };
        push_decimal(&mut out, m);
        proof {
            assert(out@ =~= seq!['-'] + decimal((-v) as nat));
        }
    } else {
        push_decimal(&mut out, v as u64);
        proof {
            assert(out@ =~= decimal(v as nat));
        }
    }
    out
}

} // verus!
