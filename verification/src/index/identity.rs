//! Index-identity guard: classify a database file as our index, our index
//! missing its stamp, a foreign file, or our index at another schema version,
//! from its `application_id` and `user_version` header fields.
use vstd::prelude::*;
use vstd::string::StringExecFns;

verus! {

/// Orgsidian index magic, written to `PRAGMA application_id` (the bytes
/// spell `ORGS`).
pub const APPLICATION_ID: i32 = 0x4F52_4753;

/// The `PRAGMA user_version` an index at schema version 1 carries.
pub const EXPECTED_USER_VERSION: i32 = 1;

/// The states the identity guard distinguishes.
#[derive(Debug, Clone, Copy, PartialEq, Eq, Structural)]
pub enum IndexIdentity {
    /// Our index at the expected schema version: open it.
    Ours,
    /// Our schema at the expected version but not yet stamped (a creation
    /// interrupted between migration and stamping): re-stamp and open.
    OursUnstamped,
    /// Not our file: refuse rather than rewrite someone else's database.
    Foreign,
    /// Our index at another schema version: drop and rebuild.
    VersionMismatch,
}

/// The identity of a database with these header fields; `has_our_schema`
/// says whether it holds every table of our schema.
pub open spec fn identity_spec(application_id: int, user_version: int, has_our_schema: bool) -> IndexIdentity {
    if application_id == APPLICATION_ID {
        if user_version == EXPECTED_USER_VERSION {
            IndexIdentity::Ours
        } else {
            IndexIdentity::VersionMismatch
        }
    } else if application_id == 0 && user_version == EXPECTED_USER_VERSION && has_our_schema {
        IndexIdentity::OursUnstamped
    } else {
        IndexIdentity::Foreign
    }
}

/// Whether the schema check is needed at all: only an unstamped file at the
/// expected version can be a half-created index of ours.
pub fn needs_schema_check(application_id: i32, user_version: i32) -> (r: bool)
    ensures
        r == (application_id == 0 && user_version == EXPECTED_USER_VERSION),
{
    application_id == 0 && user_version == EXPECTED_USER_VERSION
}

/// Classify a database by its `application_id` and `user_version` (and,
/// for an unstamped file at the expected version, whether it carries our
/// full schema).
pub fn classify_identity(application_id: i32, user_version: i32, has_our_schema: bool) -> (r: IndexIdentity)
    ensures
        r == identity_spec(application_id as int, user_version as int, has_our_schema),
        application_id != APPLICATION_ID ==> r == IndexIdentity::OursUnstamped || r == IndexIdentity::Foreign,
        application_id != APPLICATION_ID && application_id != 0 ==> r == IndexIdentity::Foreign,
        r == IndexIdentity::Ours || r == IndexIdentity::VersionMismatch ==> application_id == APPLICATION_ID,
{
    if application_id == APPLICATION_ID {
        if user_version == EXPECTED_USER_VERSION {
            IndexIdentity::Ours
        } else {
            IndexIdentity::VersionMismatch
        }
    } else if application_id == 0 && user_version == EXPECTED_USER_VERSION && has_our_schema {
        IndexIdentity::OursUnstamped
    } else {
        IndexIdentity::Foreign
    }
}

/// Stamping is what makes an index ours: a stamped database is never
/// foreign, and at the expected version it is exactly `Ours`, whatever its
/// tables; an unstamped one is ours only with the full schema at the
/// expected version.
pub proof fn lemma_stamp_decides(user_version: int, has_our_schema: bool)
    ensures
        identity_spec(APPLICATION_ID as int, user_version, has_our_schema) != IndexIdentity::Foreign,
        identity_spec(APPLICATION_ID as int, EXPECTED_USER_VERSION as int, has_our_schema) == IndexIdentity::Ours,
        identity_spec(0, user_version, has_our_schema) == IndexIdentity::OursUnstamped <==> (user_version
            == EXPECTED_USER_VERSION && has_our_schema),
{
}

/// Another application's database is never taken for ours: whatever its
/// version and tables, a file not stamped with our application id is never
/// `Ours` and never dropped and rebuilt as a `VersionMismatch`; if it
/// carries some other application's id it is `Foreign`.
pub proof fn lemma_foreign_stamp_refused(application_id: int, user_version: int, has_our_schema: bool)
    requires
        application_id != APPLICATION_ID,
    ensures
        identity_spec(application_id, user_version, has_our_schema) == IndexIdentity::OursUnstamped
            || identity_spec(application_id, user_version, has_our_schema) == IndexIdentity::Foreign,
        application_id != 0 ==> identity_spec(application_id, user_version, has_our_schema)
            == IndexIdentity::Foreign,
{
}

/// The tables a complete schema of ours holds.
pub open spec fn required_tables() -> Seq<Seq<char>> {
    seq![
        "_schema_version"@,
        "files"@,
        "headlines"@,
        "tags"@,
        "properties"@,
        "clock_entries"@,
        "links"@,
        "vault_meta"@,
        "fts_headlines"@,
        "fts_content"@,
    ]
}

/// The names of the required tables, in checking order.
pub fn required_table_names() -> (r: Vec<String>)
    ensures
        r@.len() == required_tables().len(),
        forall|k: int| 0 <= k < r@.len() ==> (#[trigger] r@[k])@ == required_tables()[k],
{
    vec![
        String::from_str("_schema_version"),
        String::from_str("files"),
        String::from_str("headlines"),
        String::from_str("tags"),
        String::from_str("properties"),
        String::from_str("clock_entries"),
        String::from_str("links"),
        String::from_str("vault_meta"),
        String::from_str("fts_headlines"),
        String::from_str("fts_content"),
    ]
}

/// `tables` names every table of our schema.
pub open spec fn schema_complete(tables: Seq<String>) -> bool {
    forall|k: int|
        0 <= k < required_tables().len() ==> exists|j: int|
            0 <= j < tables.len() && (#[trigger] tables[j])@ == #[trigger] required_tables()[k]
}

/// Whether a name occurs among `tables`.
fn names_table(tables: &Vec<String>, name: &String) -> (r: bool)
    ensures
        r == exists|j: int| 0 <= j < tables@.len() && (#[trigger] tables@[j])@ == name@,
{
    let mut j: usize = 0;
    while j < tables.len()
        invariant
            j <= tables@.len(),
            forall|i: int| 0 <= i < j ==> (#[trigger] tables@[i])@ != name@,
        decreases tables@.len() - j,
    {
        if tables[j] == *name {
            return true;
        }
        j = j + 1;
    }
    false
}

/// Whether the tables of a database (`sqlite_master` rows of type `table`)
/// include every table of our schema.
pub fn has_our_schema(tables: &Vec<String>) -> (r: bool)
    ensures
        r == schema_complete(tables@),
{
    let required = required_table_names();
    let mut k: usize = 0;
    while k < required.len()
        invariant
            k <= required@.len(),
            required@.len() == required_tables().len(),
            forall|i: int| 0 <= i < required@.len() ==> (#[trigger] required@[i])@ == required_tables()[i],
            forall|i: int|
                0 <= i < k ==> exists|j: int|
                    0 <= j < tables@.len() && (#[trigger] tables@[j])@ == #[trigger] required_tables()[i],
        decreases required@.len() - k,
    {
        if !names_table(tables, &required[k]) {
            proof {
                assert(required@[k as int]@ == required_tables()[k as int]);
            }
            return false;
        }
        proof {
            assert(required@[k as int]@ == required_tables()[k as int]);
        }
        k = k + 1;
    }
    true
}

} // verus!
