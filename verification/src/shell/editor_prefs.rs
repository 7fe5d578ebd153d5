//! Per-vault, per-file editor mode preference, kept in the vault's own
//! `.orgsidian` directory.
use vstd::prelude::*;

use crate::shell::{path_join, prefs_file_path};

verus! {

/// How a file is shown in the editor.
#[derive(Debug, Clone, Copy, PartialEq, Eq)]
pub enum EditorMode {
    /// The org source as is.
    Raw,
    /// Rendered inline while editing.
    PseudoWysiwyg,
    /// Source and rendering side by side.
    Split,
}

/// `<vault>/.orgsidian/editor-prefs.json`.
pub open spec fn editor_prefs_spec(vault_root: Seq<char>) -> Seq<char> {
    path_join(path_join(vault_root, ".orgsidian"@), "editor-prefs.json"@)
}

/// The editor prefs store of the vault at `vault_root`.
pub fn editor_prefs_path(vault_root: &str) -> (r: String)
    ensures
        r@ == editor_prefs_spec(vault_root@),
{
    prefs_file_path(vault_root, "editor-prefs.json")
}

} // verus!
