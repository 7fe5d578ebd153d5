//! The desktop shell's command logic: vault-relative paths, the wire types
//! of its commands and events, and the Schedule/Deadline command that turns
//! a date the user typed into a planning-line edit.
//!
//! The windowing, the stores and the async plumbing stand outside this
//! library; they hand these functions plain values.
use chrono::{Datelike, NaiveDate, NaiveTime, Timelike};
use vstd::prelude::*;
use vstd::std_specs::convert::FromSpecImpl;
use vstd::string::{StrSliceExecFns, StringExecFns, StringSliceAdditionalSpecFns};
use vstd::utf8::encode_utf8;

use crate::index::agenda::AgendaItem;
use crate::semantic::timestamp::{
    interval_result, lemma_interval_result_unique, planning_edit_spec, resolve_date_shortcut, set_planning_timestamp,
    shortcut_spec, valid_ymd, Date, PlannedStamp, Shortcut, Time,
};

pub mod dashboard_prefs;
pub mod editor_prefs;

verus! {

/// `base.join(rel)` on Unix paths: an absolute `rel` replaces `base`;
/// otherwise `rel` follows `base`, after a `/` unless `base` is empty or
/// already ends with one.
pub open spec fn path_join(base: Seq<char>, rel: Seq<char>) -> Seq<char> {
    if rel.len() > 0 && rel[0] == '/' {
        rel
    } else if base.len() == 0 || base.last() == '/' {
        base + rel
    } else {
        base + seq!['/'] + rel
    }
}

/// `Path::new(base).join(rel)`, as text.
pub fn join_path(base: &str, rel: &str) -> (r: String)
    ensures
        r@ == path_join(base@, rel@),
{
    let rl = rel.unicode_len();
    if rl > 0 && rel.get_char(0) == '/' {
        return rel.to_owned();
    }
    let bl = base.unicode_len();
    let mut out = base.to_owned();
    if bl > 0 && base.get_char(bl - 1) != '/' {
        proof {
            reveal_strlit("/");
        }
        out.append("/");
    }
    out.append(rel);
    out
}

/// `<vault>/.orgsidian/<file>`: where the vault keeps a preferences store.
pub fn prefs_file_path(vault_root: &str, file: &str) -> (r: String)
    ensures
        r@ == path_join(path_join(vault_root@, ".orgsidian"@), file@),
{
    let dir = join_path(vault_root, ".orgsidian");
    join_path(dir.as_str(), file)
}

/// What a shell command reports when it fails.
#[derive(Debug, Clone, PartialEq, Eq)]
pub enum ShellError {
    /// The vault is missing or refused.
    Vault { reason: String },
    /// Text the command was given did not parse.
    Parse { file: String, reason: String },
}

/// The error a vault-scoped command gives before any vault is designated.
pub fn no_active_vault() -> (r: ShellError)
    ensures
        r matches ShellError::Vault { reason } && reason@ == "no active vault; designate a vault first"@,
{
    ShellError::Vault { reason: String::from_str("no active vault; designate a vault first") }
}

/// `e` is a parse error of the editor buffer with this reason.
pub open spec fn is_bad_timestamp(e: ShellError, reason: Seq<char>) -> bool {
    e matches ShellError::Parse { file, reason: r } && file@ == "<editor-buffer>"@ && r@ == reason
}

/// A parse error of the editor buffer.
pub fn bad_timestamp(reason: String) -> (r: ShellError)
    ensures
        is_bad_timestamp(r, reason@),
{
    ShellError::Parse { file: String::from_str("<editor-buffer>"), reason }
}

/// A path is absolute when it starts at the root.
pub open spec fn is_absolute(path: Seq<char>) -> bool {
    path.len() > 0 && path[0] == '/'
}

/// Where `open_file` reads: an absolute path as given, a relative one
/// under the active vault, and no vault is an error for a relative path.
pub fn resolve_open_path(path: &str, vault_root: Option<&str>) -> (r: Result<String, ShellError>)
    ensures
        is_absolute(path@) ==> (r matches Ok(p) && p@ == path@),
        !is_absolute(path@) ==> match vault_root {
            Some(root) => (r matches Ok(p) && p@ == path_join(root@, path@)),
            None => (r matches Err(ShellError::Vault { reason }) && reason@
                == "no active vault; designate a vault first"@),
        },
{
    let n = path.unicode_len();
    if n > 0 && path.get_char(0) == '/' {
        return Ok(path.to_owned());
    }
    match vault_root {
        Some(root) => Ok(join_path(root, path)),
        None => Err(no_active_vault()),
    }
}

/// `Path::extension` of a file name: the text after its last `.`, unless
/// that dot is the name's first character (or there is none), or the name
/// is `..`.
pub open spec fn extension_of(name: Seq<char>) -> Option<Seq<char>> {
    if name == ".."@ {
        None
    } else {
        match last_dot(name, name.len() as int) {
            Some(i) if i > 0 => Some(name.subrange(i + 1, name.len() as int)),
            _ => None,
        }
    }
}

/// The position of the last `.` before `end`.
pub open spec fn last_dot(name: Seq<char>, end: int) -> Option<int>
    decreases end,
{
    if end <= 0 {
        None
    } else if name[end - 1] == '.' {
        Some(end - 1)
    } else {
        last_dot(name, end - 1)
    }
}

/// The extension is `org`, in any ASCII case.
pub open spec fn is_org_extension(ext: Seq<char>) -> bool {
    ext.len() == 3 && (ext[0] == 'o' || ext[0] == 'O') && (ext[1] == 'r' || ext[1] == 'R') && (
    ext[2] == 'g' || ext[2] == 'G')
}

/// The name's extension is `org`, in any ASCII case.
pub open spec fn org_extension(name: Seq<char>) -> bool {
    extension_of(name) matches Some(ext) && is_org_extension(ext)
}

/// A directory entry counts as an org file when it is a regular file whose
/// name has the extension `org` (in any ASCII case).
pub fn is_org_entry(is_file: bool, name: &str) -> (r: bool)
    ensures
        r == (is_file && org_extension(name@)),
{
    if !is_file {
        return false;
    }
    let n = name.unicode_len();
    proof {
        reveal_strlit("..");
    }
    if n == 2 && name.get_char(0) == '.' && name.get_char(1) == '.' {
        proof {
            assert(name@ =~= ".."@);
        }
        return false;
    }
    let mut end = n;
    while end > 0
        invariant
            end <= n == name@.len(),
            is_file,
            name@ != ".."@,
            last_dot(name@, n as int) == last_dot(name@, end as int),
        decreases end,
    {
        if name.get_char(end - 1) == '.' {
            let i = end - 1;
            if i == 0 || n - i - 1 != 3 {
                return false;
            }
            let a = name.get_char(i + 1);
            let b = name.get_char(i + 2);
            let c = name.get_char(i + 3);
            proof {
                let ext = name@.subrange(i + 1, n as int);
                assert(last_dot(name@, end as int) == Some(i as int));
                assert(ext[0] == a && ext[1] == b && ext[2] == c);
                assert(extension_of(name@) == Some(ext));
            }
            return (a == 'o' || a == 'O') && (b == 'r' || b == 'R') && (c == 'g' || c == 'G');
        }
        end = end - 1;
    }
    false
}

/// The refusal to generate a starter vault into a folder that already holds
/// org files.
pub open spec fn org_files_refusal_text(path: Seq<char>) -> Seq<char> {
    path + " already contains .org files; pick an empty folder for a Starter Vault, or use \"Use my own folder\" to designate this folder as your existing Vault instead"@
}

/// A starter vault goes only into a folder without org files: the error for
/// `path` when some entry is one.
pub fn org_files_refusal(path: &str) -> (r: ShellError)
    ensures
        r matches ShellError::Vault { reason } && reason@ == org_files_refusal_text(path@),
{
    let mut reason = path.to_owned();
    reason.append(" already contains .org files; pick an empty folder for a Starter Vault, or use \"Use my own folder\" to designate this folder as your existing Vault instead");
    ShellError::Vault { reason }
}

/// Some entry of a folder listing, given as `(is regular file, name)` pairs,
/// is an org file.
pub open spec fn listing_has_org(entries: Seq<(bool, String)>) -> bool {
    exists|i: int| 0 <= i < entries.len() && #[trigger] entries[i].0 && org_extension(entries[i].1@)
}

/// The verdict on a target folder's listing (the entries read before any
/// listing error): refused exactly when some entry is an org file.
pub fn check_target_listing(path: &str, entries: &Vec<(bool, String)>) -> (r: Result<(), ShellError>)
    ensures
        r is Ok <==> !listing_has_org(entries@),
        r matches Err(e) ==> e matches ShellError::Vault { reason } && reason@
            == org_files_refusal_text(path@),
{
    let mut i: usize = 0;
    while i < entries.len()
        invariant
            i <= entries@.len(),
            forall|j: int| 0 <= j < i ==> !(#[trigger] entries@[j].0 && org_extension(entries@[j].1@)),
        decreases entries.len() - i,
    {
        if is_org_entry(entries[i].0, entries[i].1.as_str()) {
            return Err(org_files_refusal(path));
        }
        i = i + 1;
    }
    Ok(())
}

/// Initial-scan progress, emitted at every checkpoint.
#[derive(Debug, Clone, Copy, PartialEq, Eq)]
pub struct IndexProgress {
    /// Files processed so far.
    pub current: u32,
    /// `.org` files found in the vault.
    pub total: u32,
    /// Files quarantined so far.
    pub errors: u32,
}

/// The starter vault layouts on offer.
#[derive(Debug, Clone, Copy, PartialEq, Eq)]
pub enum StarterVaultKind {
    PersonalGtd,
    Student,
}

/// What the conflict banner shows of an external change.
#[derive(Debug, Clone, PartialEq, Eq)]
pub struct ConflictSummary {
    pub ancestor_hash: String,
    pub external_len: u32,
    pub buffer_len: u32,
}

/// The event raised when a file with unsaved edits changed on disk.
#[derive(Debug, Clone, PartialEq, Eq)]
pub struct ConflictDetected {
    pub path: String,
    pub state: ConflictSummary,
}

impl ConflictDetected {
    /// The event for a conflict on `path`; the lengths are sent as `u32`
    /// (an org buffer never nears 4 GiB, and a longer one wraps).
    pub fn from_parts(path: String, ancestor_hash: String, external_len: usize, buffer_len: usize) -> (r: Self)
        ensures
            r.path == path,
            r.state.ancestor_hash == ancestor_hash,
            r.state.external_len == external_len as u32,
            r.state.buffer_len == buffer_len as u32,
    {
        ConflictDetected {
            path,
            state: ConflictSummary {
                ancestor_hash,
                external_len: external_len as u32,
                buffer_len: buffer_len as u32,
            },
        }
    }
}

/// Which planning line the Schedule/Deadline command writes, as the
/// frontend sends it.
#[derive(Debug, Clone, Copy, PartialEq, Eq)]
pub enum PlanningKind {
    Scheduled,
    Deadline,
}

impl PlanningKind {
    /// The same kind in the text layer.
    pub fn to_semantic(self) -> (r: crate::semantic::timestamp::PlanningKind)
        ensures
            r == semantic_kind(self),
    {
        match self {
            PlanningKind::Scheduled => crate::semantic::timestamp::PlanningKind::Scheduled,
            PlanningKind::Deadline => crate::semantic::timestamp::PlanningKind::Deadline,
        }
    }
}

/// The text-layer kind of a wire kind.
pub open spec fn semantic_kind(k: PlanningKind) -> crate::semantic::timestamp::PlanningKind {
    match k {
        PlanningKind::Scheduled => crate::semantic::timestamp::PlanningKind::Scheduled,
        PlanningKind::Deadline => crate::semantic::timestamp::PlanningKind::Deadline,
    }
}

/// A date the user typed (`YYYY-MM-DD` or a shortcut such as `+3d`), with
/// an optional `HH:MM` time.
#[derive(Debug, Clone, PartialEq, Eq)]
pub struct TimestampInput {
    pub date: String,
    pub time: Option<String>,
}

/// The planning edit as the frontend applies it: replace the bytes
/// `[from, to)` of its buffer with `insert`.
#[derive(Debug, Clone, PartialEq, Eq)]
pub struct PlanningEdit {
    pub from: u32,
    pub to: u32,
    pub insert: String,
}

/// What `NaiveDate::parse_from_str(text, "%Y-%m-%d")` gives for `text`:
/// the year, month and day, or the text of the parse error.
pub uninterp spec fn iso_date_parse(text: Seq<char>) -> Result<(i32, u32, u32), Seq<char>>;

/// `NaiveDate::parse_from_str(text, "%Y-%m-%d")`: the date it names (always
/// a day that exists), or the parse error's text.
#[verifier::external_body]
fn parse_iso_date(text: &str) -> (r: Result<Date, String>)
    ensures
        match iso_date_parse(text@) {
            Ok((y, m, d)) => r == Ok::<Date, String>(Date { year: y, month: m, day: d })
                && valid_ymd(y as int, m as int, d as int),
            Err(e) => r matches Err(x) && x@ == e,
        },
{
    match NaiveDate::parse_from_str(text, "%Y-%m-%d") {
        Ok(d) => Ok(Date { year: d.year(), month: d.month(), day: d.day() }),
        Err(e) => Err(e.to_string()),
    }
}

/// What `NaiveTime::parse_from_str(text, "%H:%M")` gives for `text`: the
/// hour and minute, or the text of the parse error.
pub uninterp spec fn hm_parse(text: Seq<char>) -> Result<(u32, u32), Seq<char>>;

/// `NaiveTime::parse_from_str(text, "%H:%M")`: the hour and minute (always
/// a valid clock reading), or the parse error's text.
#[verifier::external_body]
fn parse_hm_time(text: &str) -> (r: Result<Time, String>)
    ensures
        match hm_parse(text@) {
            Ok((h, m)) => r == Ok::<Time, String>(Time { hour: h, minute: m }) && h < 24 && m < 60,
            Err(e) => r matches Err(x) && x@ == e,
        },
{
    match NaiveTime::parse_from_str(text, "%H:%M") {
        Ok(t) => Ok(Time { hour: t.hour(), minute: t.minute() }),
        Err(e) => Err(e.to_string()),
    }
}

/// The `Debug` rendering of a string: quoted, with `char::escape_debug`
/// escapes.
pub uninterp spec fn debug_quoted(s: Seq<char>) -> Seq<char>;

/// `format!("{s:?}")`.
#[verifier::external_body]
fn quoted(s: &str) -> (r: String)
    ensures
        r@ == debug_quoted(s@),
{
    format!("{s:?}")
}

/// The reason given for a `today` that does not parse.
pub open spec fn today_error(today: Seq<char>, e: Seq<char>) -> Seq<char> {
    "invalid `today` "@ + debug_quoted(today) + ": "@ + e
}

/// The caller's `today`, which must be a `YYYY-MM-DD` day.
pub fn resolve_today(today: &str) -> (r: Result<Date, ShellError>)
    ensures
        match iso_date_parse(today@) {
            Ok((y, m, d)) => r == Ok::<Date, ShellError>(Date { year: y, month: m, day: d }),
            Err(e) => r matches Err(x) && is_bad_timestamp(x, today_error(today@, e)),
        },
        r matches Ok(d) ==> d.wf(),
{
    match parse_iso_date(today) {
        Ok(d) => Ok(d),
        Err(e) => {
            let mut reason = String::from_str("invalid `today` ");
            let q = quoted(today);
            reason.append(q.as_str());
            reason.append(": ");
            reason.append(e.as_str());
            Err(bad_timestamp(reason))
        },
    }
}

/// `r` is what the date shortcut `input` resolves to from `today` (`None`
/// when it is no shortcut, or when the shifted day leaves chrono's range).
pub open spec fn shortcut_gives(input: Seq<u8>, today: Date, r: Option<Date>) -> bool {
    match shortcut_spec(input) {
        Shortcut::Today => r == Some(today),
        Shortcut::Offset(n, unit) => interval_result(today, n, unit, r),
        Shortcut::Invalid => r is None,
    }
}

/// `d` is the day the typed `input` names: its shortcut reading when it has
/// one, else its `YYYY-MM-DD` reading; `None` when neither applies.
pub open spec fn date_resolves(input: Seq<char>, today: Date, d: Option<Date>) -> bool {
    ||| (d is Some && shortcut_gives(encode_utf8(input), today, d))
    ||| (shortcut_gives(encode_utf8(input), today, None) && match iso_date_parse(input) {
        Ok((y, m, dd)) => d == Some(Date { year: y, month: m, day: dd }),
        Err(_) => d is None,
    })
}

/// `r` is the outcome of resolving `input` once its day is `d`.
pub open spec fn planned_outcome(input: TimestampInput, d: Option<Date>, r: Result<PlannedStamp, ShellError>) -> bool {
    match d {
        None => r matches Err(x) && is_bad_timestamp(x, "unrecognized date "@ + debug_quoted(input.date@)),
        Some(date) => match input.time {
            Some(t) if t@.len() > 0 => match hm_parse(t@) {
                Ok((h, m)) => r == Ok::<PlannedStamp, ShellError>(
                    PlannedStamp { date, time: Some(Time { hour: h, minute: m }) },
                ),
                Err(e) => r matches Err(x) && is_bad_timestamp(
                    x,
                    "invalid time "@ + debug_quoted(t@) + ": "@ + e,
                ),
            },
            _ => r == Ok::<PlannedStamp, ShellError>(PlannedStamp { date, time: None }),
        },
    }
}

/// `r` is what the typed `input` resolves to, relative to `today`.
pub open spec fn planned_result(input: TimestampInput, today: Seq<char>, r: Result<PlannedStamp, ShellError>) -> bool {
    match iso_date_parse(today) {
        Err(e) => r matches Err(x) && is_bad_timestamp(x, today_error(today, e)),
        Ok((y, m, d)) => exists|dd: Option<Date>|
            date_resolves(input.date@, Date { year: y, month: m, day: d }, dd) && #[trigger] planned_outcome(
                input,
                dd,
                r,
            ),
    }
}

/// The typed time, when there is one, parses as `HH:MM`.
pub open spec fn time_resolves(input: TimestampInput) -> bool {
    match input.time {
        Some(t) => t@.len() == 0 || hm_parse(t@) is Ok,
        None => true,
    }
}

/// The typed input resolves against `today`: `today` is a `YYYY-MM-DD` day,
/// the typed date names a day (by shortcut or literally) and the typed time,
/// if any, parses.
pub open spec fn planned_resolves(input: TimestampInput, today: Seq<char>) -> bool {
    match iso_date_parse(today) {
        Err(_) => false,
        Ok((y, m, d)) => (exists|dd: Date|
            #[trigger] date_resolves(input.date@, Date { year: y, month: m, day: d }, Some(dd)))
            && time_resolves(input),
    }
}

/// Two outcomes agree: the same stamp, or parse errors with the same file
/// and reason text.
pub open spec fn same_outcome(r1: Result<PlannedStamp, ShellError>, r2: Result<PlannedStamp, ShellError>) -> bool {
    match (r1, r2) {
        (Ok(a), Ok(b)) => a == b,
        (Err(x), Err(y)) => x matches ShellError::Parse { file: f1, reason: q1 } && y matches ShellError::Parse {
            file: f2,
            reason: q2,
        } && f1@ == f2@ && q1@ == q2@,
        _ => false,
    }
}

proof fn lemma_shortcut_gives_unique(input: Seq<u8>, today: Date, r1: Option<Date>, r2: Option<Date>)
    requires
        shortcut_gives(input, today, r1),
        shortcut_gives(input, today, r2),
    ensures
        r1 == r2,
{
    match shortcut_spec(input) {
        Shortcut::Offset(n, unit) => lemma_interval_result_unique(today, n, unit, r1, r2),
        _ => {},
    }
}

proof fn lemma_date_resolves_unique(input: Seq<char>, today: Date, d1: Option<Date>, d2: Option<Date>)
    requires
        date_resolves(input, today, d1),
        date_resolves(input, today, d2),
    ensures
        d1 == d2,
{
    let e = encode_utf8(input);
    if d1 is Some && shortcut_gives(e, today, d1) {
        if d2 is Some && shortcut_gives(e, today, d2) {
            lemma_shortcut_gives_unique(e, today, d1, d2);
        } else {
            lemma_shortcut_gives_unique(e, today, d1, None);
        }
    } else if d2 is Some && shortcut_gives(e, today, d2) {
        lemma_shortcut_gives_unique(e, today, d2, None);
    }
}

/// Resolving typed input has one outcome, and it succeeds exactly when the
/// input resolves; every failure is a parse error.
pub proof fn lemma_planned_result_determined(
    input: TimestampInput,
    today: Seq<char>,
    r1: Result<PlannedStamp, ShellError>,
    r2: Result<PlannedStamp, ShellError>,
)
    requires
        planned_result(input, today, r1),
        planned_result(input, today, r2),
    ensures
        same_outcome(r1, r2),
        r1 is Ok <==> planned_resolves(input, today),
        r1 matches Err(e) ==> e is Parse,
{
    match iso_date_parse(today) {
        Err(_) => {},
        Ok((y, m, d)) => {
            let t = Date { year: y, month: m, day: d };
            let dd1 = choose|dd: Option<Date>| date_resolves(input.date@, t, dd) && #[trigger] planned_outcome(input, dd, r1);
            let dd2 = choose|dd: Option<Date>| date_resolves(input.date@, t, dd) && #[trigger] planned_outcome(input, dd, r2);
            lemma_date_resolves_unique(input.date@, t, dd1, dd2);
            if planned_resolves(input, today) {
                let w = choose|dd: Date| #[trigger] date_resolves(input.date@, t, Some(dd));
                lemma_date_resolves_unique(input.date@, t, dd1, Some(w));
            }
            if r1 is Ok {
                assert(date_resolves(input.date@, t, Some(dd1->0)));
            }
        },
    }
}

/// Resolve what the user typed into the stamp to write: a date shortcut is
/// tried before a literal `YYYY-MM-DD`, and an empty time means none.
pub fn resolve_planned(input: &TimestampInput, today: &str) -> (r: Result<PlannedStamp, ShellError>)
    ensures
        planned_result(*input, today@, r),
        r matches Ok(p) ==> p.wf(),
{
    let today_date = match resolve_today(today) {
        Ok(d) => d,
        Err(e) => {
            return Err(e);
        },
    };
    let shortcut = resolve_date_shortcut(input.date.as_str(), today_date);
    let date = match shortcut {
        Some(d) => d,
        None => match parse_iso_date(input.date.as_str()) {
            Ok(d) => d,
            Err(_) => {
                let mut reason = String::from_str("unrecognized date ");
                let q = quoted(input.date.as_str());
                reason.append(q.as_str());
                let r = Err(bad_timestamp(reason));
                proof {
                    assert(planned_outcome(*input, None, r));
                }
                return r;
            },
        },
    };
    let time = match &input.time {
        Some(text) if text.as_str().unicode_len() > 0 => match parse_hm_time(text.as_str()) {
            Ok(t) => Some(t),
            Err(e) => {
                let mut reason = String::from_str("invalid time ");
                let q = quoted(text.as_str());
                reason.append(q.as_str());
                reason.append(": ");
                reason.append(e.as_str());
                let r = Err(bad_timestamp(reason));
                proof {
                    assert(planned_outcome(*input, Some(date), r));
                }
                return r;
            },
        },
        _ => None,
    };
    let r = Ok(PlannedStamp { date, time });
    proof {
        assert(planned_outcome(*input, Some(date), r));
    }
    r
}

/// `r` is the wire form of the planning edit on `source` for this kind and
/// stamp: the offsets as `u32` and the inserted text.
pub open spec fn wire_edit(
    r: Result<PlanningEdit, ShellError>,
    source: Seq<u8>,
    offset: int,
    kind: PlanningKind,
    new: Option<PlannedStamp>,
) -> bool {
    r matches Ok(w) && w.from == planning_edit_spec(source, offset, semantic_kind(kind), new).0 as u32
        && w.to == planning_edit_spec(source, offset, semantic_kind(kind), new).1 as u32
        && w.insert@ == planning_edit_spec(source, offset, semantic_kind(kind), new).2
}

/// The Schedule/Deadline command: set (`timestamp = Some`) or remove the
/// `kind` planning stamp of the headline at byte `headline_id` of `source`,
/// answering the edit for the frontend to apply; a typed date or time that
/// does not resolve is an error and nothing is edited.
pub fn set_scheduled(
    source: &str,
    headline_id: u32,
    kind: PlanningKind,
    timestamp: Option<TimestampInput>,
    today: &str,
) -> (r: Result<PlanningEdit, ShellError>)
    ensures
        match timestamp {
            None => wire_edit(r, source.spec_bytes(), headline_id as int, kind, None),
            Some(input) => exists|pr: Result<PlannedStamp, ShellError>|
                #[trigger] planned_result(input, today@, pr) && match pr {
                    Err(e) => r == Err::<PlanningEdit, ShellError>(e),
                    Ok(p) => wire_edit(r, source.spec_bytes(), headline_id as int, kind, Some(p)),
                },
        },
        timestamp matches Some(input) ==> (r is Ok <==> planned_resolves(input, today@)),
        r matches Err(e) ==> e is Parse,
{
    let planned = match &timestamp {
        Some(input) => {
            let pr = resolve_planned(input, today);
            proof {
                lemma_planned_result_determined(*input, today@, pr, pr);
            }
            match pr {
                Ok(p) => Some(p),
                Err(e) => {
                    return Err(e);
                },
            }
        },
        None => None,
    };
    let edit = set_planning_timestamp(source, headline_id as usize, kind.to_semantic(), planned);
    Ok(PlanningEdit { from: edit.from as u32, to: edit.to as u32, insert: edit.insert })
}

/// An agenda row as the frontend receives it (ids and offsets as `u32`).
#[derive(Debug, Clone, PartialEq, Eq)]
pub struct AgendaItemDto {
    pub headline_id: u32,
    pub file_path: String,
    pub title: String,
    pub byte_start: u32,
    pub todo_keyword: Option<String>,
    pub scheduled_date: Option<String>,
    pub scheduled_time: Option<String>,
    pub deadline_date: Option<String>,
    pub deadline_time: Option<String>,
    pub overdue: bool,
    pub agenda_date: String,
}

impl From<AgendaItem> for AgendaItemDto {
    fn from(item: AgendaItem) -> (r: AgendaItemDto) {
        AgendaItemDto {
            headline_id: item.headline_id as u32,
            file_path: item.file_path,
            title: item.title,
            byte_start: item.byte_start as u32,
            todo_keyword: item.todo_keyword,
            scheduled_date: item.scheduled_date,
            scheduled_time: item.scheduled_time,
            deadline_date: item.deadline_date,
            deadline_time: item.deadline_time,
            overdue: item.overdue,
            agenda_date: item.agenda_date,
        }
    }
}

impl FromSpecImpl<AgendaItem> for AgendaItemDto {
    open spec fn obeys_from_spec() -> bool {
        true
    }

    open spec fn from_spec(item: AgendaItem) -> AgendaItemDto {
        AgendaItemDto {
            headline_id: item.headline_id as u32,
            file_path: item.file_path,
            title: item.title,
            byte_start: item.byte_start as u32,
            todo_keyword: item.todo_keyword,
            scheduled_date: item.scheduled_date,
            scheduled_time: item.scheduled_time,
            deadline_date: item.deadline_date,
            deadline_time: item.deadline_time,
            overdue: item.overdue,
            agenda_date: item.agenda_date,
        }
    }
}

} // verus!
