//! The locked per-connection settings of the index database and the
//! read-back verification that they took effect.
use vstd::prelude::*;
use vstd::string::{StringExecFns, StringSliceAdditionalSpecFns};

use vstd::utf8::encode_utf8;

use crate::text::{eq_ignore_case, eq_ignore_case_range, i64_string, int_text};

verus! {

/// Requested memory-map size, in bytes (256 MiB).
pub const MMAP_SIZE_BYTES: i64 = 268_435_456;

/// Page-cache size, negative so SQLite reads it as KiB (62.5 MiB).
pub const CACHE_SIZE_KIB: i64 = -64_000;

/// WAL auto-checkpoint threshold, in pages.
pub const WAL_AUTOCHECKPOINT_PAGES: i64 = 4_000;

/// The locked PRAGMA batch, applied in order on every connection.
pub open spec fn pragmas_text() -> Seq<char> {
    "PRAGMA journal_mode = WAL;\nPRAGMA synchronous = NORMAL;\nPRAGMA mmap_size = "@ + int_text(
        MMAP_SIZE_BYTES as int,
    ) + ";\nPRAGMA cache_size = "@ + int_text(CACHE_SIZE_KIB as int)
        + ";\nPRAGMA temp_store = MEMORY;\nPRAGMA wal_autocheckpoint = "@ + int_text(
        WAL_AUTOCHECKPOINT_PAGES as int,
    ) + ";\nPRAGMA foreign_keys = ON;\n"@
}

/// The locked set, built from the constants above so that the values applied
/// and the values verified cannot drift apart.
pub fn locked_pragmas() -> (r: String)
    ensures
        r@ == pragmas_text(),
{
    let mut out = String::from_str("PRAGMA journal_mode = WAL;\nPRAGMA synchronous = NORMAL;\nPRAGMA mmap_size = ");
    let a = i64_string(MMAP_SIZE_BYTES);
    out.append(a.as_str());
    out.append(";\nPRAGMA cache_size = ");
    let b = i64_string(CACHE_SIZE_KIB);
    out.append(b.as_str());
    out.append(";\nPRAGMA temp_store = MEMORY;\nPRAGMA wal_autocheckpoint = ");
    let c = i64_string(WAL_AUTOCHECKPOINT_PAGES);
    out.append(c.as_str());
    out.append(";\nPRAGMA foreign_keys = ON;\n");
    out
}

/// A PRAGMA that did not take the value it was set to.
#[derive(Debug, PartialEq, Eq)]
pub struct PragmaMismatch {
    /// The PRAGMA's name.
    pub name: &'static str,
    /// What it should read back as.
    pub expected: String,
    /// What it did read back as.
    pub actual: String,
}

/// Compare an integer PRAGMA's read-back value with the expected one.
pub fn check_int(name: &'static str, expected: i64, actual: i64) -> (r: Result<(), PragmaMismatch>)
    ensures
        r is Ok <==> expected == actual,
        r matches Err(e) ==> e.name == name && e.expected@ == int_text(expected as int) && e.actual@
            == int_text(actual as int),
{
    if actual == expected {
        return Ok(());
    }
    Err(PragmaMismatch { name, expected: i64_string(expected), actual: i64_string(actual) })
}

/// Compare a text PRAGMA's read-back value with the expected one, ignoring
/// ASCII case.
pub fn check_text(name: &'static str, expected: &str, actual: String) -> (r: Result<(), PragmaMismatch>)
    ensures
        r is Ok <==> eq_ignore_case(encode_utf8(actual@), encode_utf8(expected@)),
        r matches Err(e) ==> e.name == name && e.expected@ == expected@ && e.actual@ == actual@,
{
    let a = actual.as_str().as_bytes();
    let same = eq_ignore_case_range(a, 0, a.len(), expected.as_bytes());
    proof {
        assert(a@.subrange(0, a@.len() as int) =~= a@);
    }
    if same {
        return Ok(());
    }
    Err(PragmaMismatch { name, expected: expected.to_owned(), actual })
}

/// The text a failed `mmap_size` check reports as expected: the map is only
/// required to be on, since the build may clamp the requested size.
pub open spec fn mmap_expectation_text() -> Seq<char> {
    "> 0 (requested "@ + int_text(MMAP_SIZE_BYTES as int) + ", build may clamp it lower)"@
}

/// `mmap_size` passes when memory mapping is on at all (`> 0`), not only at
/// the requested size.
pub fn check_mmap(actual: i64) -> (r: Result<(), PragmaMismatch>)
    ensures
        r is Ok <==> actual > 0,
        r matches Err(e) ==> e.name@ == "mmap_size"@ && e.expected@ == mmap_expectation_text()
            && e.actual@ == int_text(actual as int),
{
    if actual > 0 {
        return Ok(());
    }
    let mut expected = String::from_str("> 0 (requested ");
    let n = i64_string(MMAP_SIZE_BYTES);
    expected.append(n.as_str());
    expected.append(", build may clamp it lower)");
    Err(PragmaMismatch { name: "mmap_size", expected, actual: i64_string(actual) })
}

impl PragmaMismatch {
    /// The error text: `pragma NAME did not take effect: expected E, got A`.
    pub fn message(&self) -> (r: String)
        ensures
            r@ == "pragma "@ + self.name@ + " did not take effect: expected "@ + self.expected@
                + ", got "@ + self.actual@,
    {
        let mut out = String::from_str("pragma ");
        out.append(self.name);
        out.append(" did not take effect: expected ");
        out.append(self.expected.as_str());
        out.append(", got ");
        out.append(self.actual.as_str());
        out
    }
}

/// The read-back values that the locked set must produce, in the order they
/// are checked: `journal_mode` as text, then the integer PRAGMAs, with
/// `mmap_size` checked only for being on.
pub struct ReadBack {
    pub journal_mode: String,
    pub synchronous: i64,
    pub mmap_size: i64,
    pub cache_size: i64,
    pub temp_store: i64,
    pub wal_autocheckpoint: i64,
    pub foreign_keys: i64,
}

/// Whether every read-back value is what the locked set asks for.
pub open spec fn read_back_ok(v: ReadBack) -> bool {
    &&& eq_ignore_case(encode_utf8(v.journal_mode@), encode_utf8("wal"@))
    &&& v.synchronous == 1
    &&& v.mmap_size > 0
    &&& v.cache_size == CACHE_SIZE_KIB
    &&& v.temp_store == 2
    &&& v.wal_autocheckpoint == WAL_AUTOCHECKPOINT_PAGES
    &&& v.foreign_keys == 1
}

/// The first PRAGMA, in the locked order, whose read-back value is wrong:
/// its name, the expected text and the read-back text.
pub open spec fn first_mismatch(v: ReadBack) -> Option<(Seq<char>, Seq<char>, Seq<char>)> {
    if !eq_ignore_case(encode_utf8(v.journal_mode@), encode_utf8("wal"@)) {
        Some(("journal_mode"@, "wal"@, v.journal_mode@))
    } else if v.synchronous != 1 {
        Some(("synchronous"@, int_text(1), int_text(v.synchronous as int)))
    } else if v.mmap_size <= 0 {
        Some(("mmap_size"@, mmap_expectation_text(), int_text(v.mmap_size as int)))
    } else if v.cache_size != CACHE_SIZE_KIB {
        Some(("cache_size"@, int_text(CACHE_SIZE_KIB as int), int_text(v.cache_size as int)))
    } else if v.temp_store != 2 {
        Some(("temp_store"@, int_text(2), int_text(v.temp_store as int)))
    } else if v.wal_autocheckpoint != WAL_AUTOCHECKPOINT_PAGES {
        Some(
            (
                "wal_autocheckpoint"@,
                int_text(WAL_AUTOCHECKPOINT_PAGES as int),
                int_text(v.wal_autocheckpoint as int),
            ),
        )
    } else if v.foreign_keys != 1 {
        Some(("foreign_keys"@, int_text(1), int_text(v.foreign_keys as int)))
    } else {
        None
    }
}

/// Verify the read-back values in the locked order, reporting the first
/// PRAGMA that did not take.
pub fn verify_read_back(v: ReadBack) -> (r: Result<(), PragmaMismatch>)
    ensures
        r is Ok <==> read_back_ok(v),
        r is Ok <==> first_mismatch(v) is None,
        r matches Err(e) ==> first_mismatch(v) == Some((e.name@, e.expected@, e.actual@)),
{
    check_text("journal_mode", "wal", v.journal_mode)?;
    check_int("synchronous", 1, v.synchronous)?;
    check_mmap(v.mmap_size)?;
    check_int("cache_size", CACHE_SIZE_KIB, v.cache_size)?;
    check_int("temp_store", 2, v.temp_store)?;
    check_int("wal_autocheckpoint", WAL_AUTOCHECKPOINT_PAGES, v.wal_autocheckpoint)?;
    check_int("foreign_keys", 1, v.foreign_keys)?;
    Ok(())
}

/// The reader pool's connection factory: every connection it makes is
/// opened on this database file with the locked settings.
#[derive(Debug)]
pub struct ConnectionManager {
    db_path: String,
}

impl ConnectionManager {
    /// A manager for the index database at `db_path`.
    pub fn new(db_path: &str) -> (r: Self)
        ensures
            r.path()@ == db_path@,
    {
        ConnectionManager { db_path: db_path.to_owned() }
    }

    /// The database file this manager opens.
    pub closed spec fn path(&self) -> String {
        self.db_path
    }

    /// The database file this manager opens.
    pub fn db_path(&self) -> (r: &str)
        ensures
            r@ == self.path()@,
    {
        self.db_path.as_str()
    }
}

} // verus!
