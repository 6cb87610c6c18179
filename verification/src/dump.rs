//! The decisions of taking a snapshot of a Codex home.
use vstd::prelude::*;
use crate::digest::{Fingerprint, same_fingerprint};
use crate::paths::{below, is_within, path_within};
use crate::text::{chars_eq, chars_of};

verus! {

/// Why a snapshot was not taken.
#[derive(Debug)]
pub enum DumpError {
    /// The output path exists already; a snapshot never replaces one.
    OutputExists,
    /// The Codex home holds no history file.
    NoHistory,
    /// The output would lie inside the Codex home.
    OutputInsideHome,
    /// A history file changed while it was copied.
    SourceChanged(String),
    /// History files appeared or disappeared while the snapshot was taken.
    InventoryChanged,
    /// A database copy failed its integrity check.
    InvalidDatabase,
}

/// A snapshot goes to a new path only.
pub fn require_new_output(exists: bool) -> (r: Result<(), DumpError>)
    ensures
        r is Ok <==> !exists,
{
    if exists {
        Err(DumpError::OutputExists)
    } else {
        Ok(())
    }
}

/// A snapshot holds at least one history file.
pub fn require_history(paths: &Vec<String>) -> (r: Result<(), DumpError>)
    ensures
        r is Ok <==> paths@.len() > 0,
{
    if paths.len() == 0 {
        Err(DumpError::NoHistory)
    } else {
        Ok(())
    }
}

/// The output's directory (resolved) must not lie inside the Codex home (resolved).
pub fn require_outside_home(parent: &str, home: &str) -> (r: Result<(), DumpError>)
    ensures
        r is Ok <==> !path_within(parent@, home@),
        parent@ == home@ || below(parent@, home@) ==> r is Err,
{
    if is_within(parent, home) {
        Err(DumpError::OutputInsideHome)
    } else {
        Ok(())
    }
}

/// A copy is kept only when the source's fingerprint before the copy, the copy's, and the
/// source's after the copy are all the same.
pub fn check_copy(path: &str, before: &Fingerprint, copied: &Fingerprint, after: &Fingerprint) -> (r:
    Result<(), DumpError>)
    ensures
        r is Ok <==> (before.size == copied.size && before.sha256@ == copied.sha256@ && before.size
            == after.size && before.sha256@ == after.sha256@),
        r matches Err(e) ==> e matches DumpError::SourceChanged(p) && p@ == path@,
{
    if same_fingerprint(before, copied) && same_fingerprint(before, after) {
        Ok(())
    } else {
        Err(DumpError::SourceChanged(path.to_owned()))
    }
}

/// The history inventory must not change while a snapshot is taken.
pub fn check_inventory_unchanged(first: &Vec<String>, again: &Vec<String>) -> (r: Result<
    (),
    DumpError,
>)
    ensures
        r is Ok <==> first@.map_values(|p: String| p@) == again@.map_values(|p: String| p@),
{
    let ghost a = first@.map_values(|p: String| p@);
    let ghost b = again@.map_values(|p: String| p@);
    if first.len() != again.len() {
        proof {
            assert(a.len() != b.len());
        }
        return Err(DumpError::InventoryChanged);
    }
    let n = first.len();
    let mut i: usize = 0;
    while i < n
        invariant
            n == first@.len(),
            n == again@.len(),
            a == first@.map_values(|p: String| p@),
            b == again@.map_values(|p: String| p@),
            i <= n,
            forall|k: int| 0 <= k < i ==> a[k] == b[k],
        decreases n - i,
    {
        if first[i] != again[i] {
            proof {
                assert(a[i as int] != b[i as int]);
            }
            return Err(DumpError::InventoryChanged);
        }
        i += 1;
    }
    proof {
        assert(a =~= b);
    }
    Ok(())
}

/// A database copy is kept only when SQLite's `quick_check` reports `ok`.
pub fn check_integrity(report: &str) -> (r: Result<(), DumpError>)
    ensures
        r is Ok <==> report@ == "ok"@,
{
    proof {
        reveal_strlit("ok");
    }
    if chars_eq(&chars_of(report), &chars_of("ok")) {
        Ok(())
    } else {
        Err(DumpError::InvalidDatabase)
    }
}

/// The conversation databases that a snapshot carries, by file name: none in a
/// history-only snapshot.
pub fn database_names(history_only: bool) -> (names: Vec<&'static str>)
    ensures
        history_only ==> names@.len() == 0,
        !history_only ==> names@.len() == 2 && names@[0]@ == "state_5.sqlite"@ && names@[1]@
            == "thread_history_1.sqlite"@,
{
    let mut names = Vec::new();
    if history_only {
        return names;
    }
    names.push("state_5.sqlite");
    names.push("thread_history_1.sqlite");
    names
}

/// The snapshot path of a database: its file name under `sqlite/`.
pub fn database_entry_path(name: &str) -> (p: String)
    ensures
        p@ == "sqlite/"@ + name@,
{
    let mut p = "sqlite/".to_owned();
    crate::text::push_chars(&mut p, &chars_of(name));
    p
}

} // verus!
