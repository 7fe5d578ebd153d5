//! The index integrity report: SQLite's own page-level check, foreign-key
//! consistency, and the consistency of both full-text tables, read into one
//! report that is healthy only when every check is.
use vstd::prelude::*;
use vstd::string::StringExecFns;

use crate::text::{i64_string, int_text};

verus! {

/// The outcome of one check.
#[derive(Debug, Clone, PartialEq, Eq)]
pub struct IntegrityCheck {
    /// Which check.
    pub name: String,
    /// Whether it passed.
    pub ok: bool,
    /// What it reported, when it failed.
    pub detail: Option<String>,
}

/// Every check, and whether all of them passed.
#[derive(Debug, Clone, PartialEq, Eq)]
pub struct IntegrityReport {
    pub ok: bool,
    pub checks: Vec<IntegrityCheck>,
}

/// The texts of some strings.
pub open spec fn texts(v: Seq<String>) -> Seq<Seq<char>> {
    v.map_values(|s: String| s@)
}

/// `parts` joined with `sep` between consecutive parts (`[T]::join`).
pub open spec fn joined(parts: Seq<Seq<char>>, sep: Seq<char>) -> Seq<char>
    decreases parts.len(),
{
    if parts.len() == 0 {
        Seq::empty()
    } else if parts.len() == 1 {
        parts[0]
    } else {
        joined(parts.drop_last(), sep) + sep + parts.last()
    }
}

/// `parts.join(sep)`.
pub fn join_texts(parts: &Vec<String>, sep: &str) -> (r: String)
    ensures
        r@ == joined(texts(parts@), sep@),
{
    let mut out = String::new();
    if parts.len() == 0 {
        return out;
    }
    out.append(parts[0].as_str());
    let mut i: usize = 1;
    proof {
        assert(texts(parts@.take(1)) =~= seq![parts@[0]@]);
    }
    while i < parts.len()
        invariant
            1 <= i <= parts@.len(),
            out@ == joined(texts(parts@.take(i as int)), sep@),
        decreases parts@.len() - i,
    {
        out.append(sep);
        out.append(parts[i].as_str());
        proof {
            let t = texts(parts@.take(i + 1));
            assert(t.drop_last() =~= texts(parts@.take(i as int)));
            assert(t.last() == parts@[i as int]@);
        }
        i = i + 1;
    }
    proof {
        assert(parts@.take(parts@.len() as int) =~= parts@);
    }
    out
}

/// The detail of a failed check: its report lines joined by `"; "`.
pub open spec fn detail_of(ok: bool, lines: Seq<String>) -> Option<Seq<char>> {
    if ok {
        None
    } else {
        Some(joined(texts(lines), "; "@))
    }
}

/// The detail text of a check, if any.
pub open spec fn detail_text(c: IntegrityCheck) -> Option<Seq<char>> {
    match c.detail {
        Some(d) => Some(d@),
        None => None,
    }
}

/// `PRAGMA integrity_check` passes when it answers exactly one line, `ok`.
pub fn page_check_verdict(lines: Vec<String>) -> (r: IntegrityCheck)
    ensures
        r.name@ == "integrity_check"@,
        r.ok == (lines@.len() == 1 && lines@[0]@ == "ok"@),
        detail_text(r) == detail_of(r.ok, lines@),
{
    let ok = lines.len() == 1 && lines[0] == String::from_str("ok");
    let detail = if ok {
        None
    } else {
        Some(join_texts(&lines, "; "))
    };
    IntegrityCheck { name: String::from_str("integrity_check"), ok, detail }
}

/// One `PRAGMA foreign_key_check` row as text: `TABLE rowid N -> PARENT`,
/// or `TABLE -> PARENT` for a table without rowids.
pub open spec fn violation_text(table: Seq<char>, rowid: Option<i64>, referred: Seq<char>) -> Seq<char> {
    match rowid {
        Some(n) => table + " rowid "@ + int_text(n as int) + " -> "@ + referred,
        None => table + " -> "@ + referred,
    }
}

/// Describe one foreign-key violation.
pub fn violation(table: &str, rowid: Option<i64>, referred: &str) -> (r: String)
    ensures
        r@ == violation_text(table@, rowid, referred@),
{
    let mut out = String::from_str(table);
    match rowid {
        Some(n) => {
            out.append(" rowid ");
            let t = i64_string(n);
            out.append(t.as_str());
        },
        None => {},
    }
    out.append(" -> ");
    out.append(referred);
    out
}

/// `PRAGMA foreign_key_check` passes when it reports no violation.
pub fn foreign_key_verdict(violations: Vec<String>) -> (r: IntegrityCheck)
    ensures
        r.name@ == "foreign_key_check"@,
        r.ok == (violations@.len() == 0),
        detail_text(r) == detail_of(r.ok, violations@),
{
    let ok = violations.len() == 0;
    let detail = if ok {
        None
    } else {
        Some(join_texts(&violations, "; "))
    };
    IntegrityCheck { name: String::from_str("foreign_key_check"), ok, detail }
}

/// An FTS5 table's own `integrity-check` command passes when it runs
/// without error; the error's text is the detail.
pub fn fts_verdict(table: &str, error: Option<String>) -> (r: IntegrityCheck)
    ensures
        r.name@ == table@,
        r.ok == error is None,
        r.detail == error,
{
    let ok = error.is_none();
    IntegrityCheck { name: String::from_str(table), ok, detail: error }
}

/// The report over these checks: healthy exactly when every check passed.
pub fn integrity_report(checks: Vec<IntegrityCheck>) -> (r: IntegrityReport)
    ensures
        r.checks@ == checks@,
        r.ok == (forall|k: int| 0 <= k < checks@.len() ==> (#[trigger] checks@[k]).ok),
{
    let mut ok = true;
    let mut k: usize = 0;
    while k < checks.len()
        invariant
            k <= checks@.len(),
            ok == (forall|j: int| 0 <= j < k ==> (#[trigger] checks@[j]).ok),
        decreases checks@.len() - k,
    {
        ok = ok && checks[k].ok;
        k = k + 1;
    }
    IntegrityReport { ok, checks }
}

} // verus!
