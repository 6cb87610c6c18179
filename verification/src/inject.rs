//! The decisions of restoring a snapshot into a Codex home: where each file goes, which
//! files are skipped, kept, refused or merged, and when the history index is rebuilt.
use vstd::prelude::*;
use crate::digest::{Fingerprint, same_fingerprint};
use crate::json::Json;
use crate::manifest::Entry;
use crate::paths::{join, join_path, sibling, sibling_path};
use crate::text::{chars_eq, chars_of, contains_char, starts_with_chars};

verus! {

/// Why a snapshot was not restored.
#[derive(Debug)]
pub enum InjectError {
    /// A database exists at the destination; it is never replaced wholesale.
    DatabaseExists(String),
    /// The same rollout exists at the destination stored the other way (plain or
    /// compressed).
    StorageConflict(String),
    /// A destination file changed between planning and writing.
    DestinationChanged(String),
}

/// What restoring a snapshot entry amounts to.
#[derive(Debug)]
pub enum Disposition {
    /// A database, left out because only history is restored.
    KeepDatabase,
    /// Restore the entry at `target`.
    Restore { target: String, database: bool },
}

/// The entry is one of the conversation databases.
pub open spec fn is_database_entry(path: Seq<char>) -> bool {
    "sqlite/"@.is_prefix_of(path)
}

/// Where an entry goes: a database into the SQLite home under its own name, any other file
/// into the Codex home at its relative path; databases are kept out of a history-only
/// restore.
pub fn entry_disposition(path: &str, history_only: bool, home: &str, sqlite_home: &str) -> (r:
    Disposition)
    ensures
        (r is KeepDatabase) == (is_database_entry(path@) && history_only),
        r matches Disposition::Restore { target, database } ==> database == is_database_entry(
            path@,
        ) && target@ == if database {
            join(sqlite_home@, path@.skip(7))
        } else {
            join(home@, path@)
        },
{
    proof {
        reveal_strlit("sqlite/");
    }
    let p = chars_of(path);
    let database = starts_with_chars(&p, &chars_of("sqlite/"));
    if database && history_only {
        return Disposition::KeepDatabase;
    }
    let target = if database {
        let name = crate::text::string_of(p.split_at(7).1);
        proof {
            assert(name@ =~= path@.skip(7));
        }
        join_path(sqlite_home, name.as_str())
    } else {
        join_path(home, path)
    };
    Disposition::Restore { target, database }
}

/// What the destination holds at an entry's target.
#[derive(Debug, PartialEq, Eq, Structural, Clone, Copy)]
pub enum Existing {
    /// Nothing: the entry is written as a new file.
    Absent,
    /// The same history file: the entry is skipped.
    Identical,
    /// A different history file: the two are merged.
    Differs,
}

/// Compares the destination's file at `target` with the entry. An existing database is
/// refused; an identical history file is skipped; any other history file is merged.
pub fn existing_target(entry: &Entry, database: bool, target: &str, before: &Option<Fingerprint>) -> (r:
    Result<Existing, InjectError>)
    ensures
        match before {
            None => r == Ok::<_, InjectError>(Existing::Absent),
            Some(f) => if database {
                r matches Err(InjectError::DatabaseExists(t)) && t@ == target@
            } else if f.size == entry.size && f.sha256@ == entry.sha256@ {
                r == Ok::<_, InjectError>(Existing::Identical)
            } else {
                r == Ok::<_, InjectError>(Existing::Differs)
            },
        },
{
    match before {
        None => Ok(Existing::Absent),
        Some(f) => {
            if database {
                return Err(InjectError::DatabaseExists(target.to_owned()));
            }
            let expected = Fingerprint { size: entry.size, sha256: entry.sha256.clone() };
            if same_fingerprint(f, &expected) {
                Ok(Existing::Identical)
            } else {
                Ok(Existing::Differs)
            }
        },
    }
}

/// The path whose existence conflicts with restoring a rollout at `target`: the same
/// rollout stored the other way. Only history files in a directory have one.
pub fn conflicting_sibling(path: &str, database: bool, target: &str) -> (r: Option<String>)
    ensures
        match r {
            Some(s) => !database && path@.contains('/') && s@ == sibling(target@),
            None => database || !path@.contains('/'),
        },
{
    if !database && contains_char(&chars_of(path), '/') {
        Some(sibling_path(target))
    } else {
        None
    }
}

/// Restoring a rollout at `target` fails when the same rollout exists there stored the
/// other way.
pub fn require_single_storage(target: &str, sibling_exists: bool) -> (r: Result<(), InjectError>)
    ensures
        r is Ok <==> !sibling_exists,
        r matches Err(e) ==> e matches InjectError::StorageConflict(t) && t@ == target@,
{
    if sibling_exists {
        Err(InjectError::StorageConflict(target.to_owned()))
    } else {
        Ok(())
    }
}

/// Where a restored entry goes: a database into the SQLite home under its own name, any
/// other file into the Codex home at its relative path.
pub open spec fn entry_target(path: Seq<char>, home: Seq<char>, sqlite_home: Seq<char>) -> Seq<
    char,
> {
    if is_database_entry(path) {
        join(sqlite_home, path.skip(7))
    } else {
        join(home, path)
    }
}

/// What to do with one snapshot entry.
#[derive(Debug)]
pub enum Step {
    /// A database, left out because only history is restored.
    Keep,
    /// The destination already holds the same file.
    Skip,
    /// The decision waits on whether this path (the same rollout stored the other way)
    /// exists at the destination.
    LookAt(String),
    /// Stage the entry for `target`; `merge` when it is merged with the destination's
    /// file rather than copied.
    Stage { target: String, database: bool, merge: bool },
}

/// The decision on one entry, as a value of specification.
pub enum Planned {
    Keep,
    Skip,
    LookAt(Seq<char>),
    Stage(Seq<char>, bool, bool),
    DatabaseExists(Seq<char>),
    StorageConflict(Seq<char>),
}

/// The decision on an entry, given the destination's file at its target (`before`) and,
/// once asked for, whether the same rollout exists there stored the other way.
pub open spec fn plan(
    entry: Entry,
    history_only: bool,
    home: Seq<char>,
    sqlite_home: Seq<char>,
    before: Option<Fingerprint>,
    sibling_exists: Option<bool>,
) -> Planned {
    let path = entry.path@;
    let database = is_database_entry(path);
    let target = entry_target(path, home, sqlite_home);
    if database && history_only {
        Planned::Keep
    } else if before is Some && database {
        Planned::DatabaseExists(target)
    } else if before is Some && before->Some_0.size == entry.size && before->Some_0.sha256@
        == entry.sha256@ {
        Planned::Skip
    } else if !database && path.contains('/') {
        match sibling_exists {
            None => Planned::LookAt(sibling(target)),
            Some(true) => Planned::StorageConflict(target),
            Some(false) => Planned::Stage(target, database, before is Some),
        }
    } else {
        Planned::Stage(target, database, before is Some)
    }
}

/// A result of [`plan_entry`] is the planned decision.
pub open spec fn is_planned(r: Result<Step, InjectError>, p: Planned) -> bool {
    match (r, p) {
        (Ok(Step::Keep), Planned::Keep) => true,
        (Ok(Step::Skip), Planned::Skip) => true,
        (Ok(Step::LookAt(s)), Planned::LookAt(t)) => s@ == t,
        (Ok(Step::Stage { target, database, merge }), Planned::Stage(t, d, m)) => target@ == t
            && database == d && merge == m,
        (Err(InjectError::DatabaseExists(s)), Planned::DatabaseExists(t)) => s@ == t,
        (Err(InjectError::StorageConflict(s)), Planned::StorageConflict(t)) => s@ == t,
        _ => false,
    }
}

/// Decides what restoring one entry amounts to: keep a database out of a history-only
/// restore, refuse to replace a database, skip an identical file, refuse a rollout stored
/// the other way, and otherwise stage it to be copied or merged. `sibling_exists` is
/// `None` until the caller has looked at the path that a `LookAt` names.
pub fn plan_entry(
    entry: &Entry,
    history_only: bool,
    home: &str,
    sqlite_home: &str,
    before: &Option<Fingerprint>,
    sibling_exists: Option<bool>,
) -> (r: Result<Step, InjectError>)
    ensures
        is_planned(r, plan(*entry, history_only, home@, sqlite_home@, *before, sibling_exists)),
{
    let (target, database) = match entry_disposition(&entry.path, history_only, home, sqlite_home) {
        Disposition::KeepDatabase => {
            return Ok(Step::Keep);
        },
        Disposition::Restore { target, database } => (target, database),
    };
    let merge = match existing_target(entry, database, &target, before) {
        Err(e) => {
            return Err(e);
        },
        Ok(Existing::Identical) => {
            return Ok(Step::Skip);
        },
        Ok(Existing::Differs) => true,
        Ok(Existing::Absent) => false,
    };
    if let Some(other) = conflicting_sibling(&entry.path, database, &target) {
        match sibling_exists {
            None => {
                return Ok(Step::LookAt(other));
            },
            Some(exists) => {
                if let Err(e) = require_single_storage(&target, exists) {
                    return Err(e);
                }
            },
        }
    }
    Ok(Step::Stage { target, database, merge })
}

/// Whether restoring goes on to write: not on a dry run, and not when nothing changes.
#[derive(Debug, PartialEq, Eq, Structural, Clone, Copy)]
pub enum Go {
    /// Report what would be written and stop.
    DryRun,
    /// Nothing to write.
    NothingToDo,
    /// Check the destination again and write.
    Write,
}

/// Decides whether the planned changes are written.
pub fn go_ahead(changes: &Vec<Change>, dry_run: bool) -> (g: Go)
    ensures
        g == if dry_run {
            Go::DryRun
        } else if changes@.len() == 0 {
            Go::NothingToDo
        } else {
            Go::Write
        },
{
    if dry_run {
        Go::DryRun
    } else if changes.len() == 0 {
        Go::NothingToDo
    } else {
        Go::Write
    }
}

/// How a history file merges.
#[derive(Debug, PartialEq, Eq, Structural, Clone, Copy)]
pub enum MergeKind {
    /// The input history, merged as a union of records.
    History,
    /// The conversation-name index, merged by latest update.
    SessionIndex,
    /// A rollout, merged by complete-line extension.
    Rollout,
}

/// The merge that applies to a history path.
pub fn merge_kind(path: &str) -> (k: MergeKind)
    ensures
        k == if path@ == "history.jsonl"@ {
            MergeKind::History
        } else if path@ == "session_index.jsonl"@ {
            MergeKind::SessionIndex
        } else {
            MergeKind::Rollout
        },
{
    proof {
        reveal_strlit("history.jsonl");
        reveal_strlit("session_index.jsonl");
    }
    let p = chars_of(path);
    if chars_eq(&p, &chars_of("history.jsonl")) {
        MergeKind::History
    } else if chars_eq(&p, &chars_of("session_index.jsonl")) {
        MergeKind::SessionIndex
    } else {
        MergeKind::Rollout
    }
}

/// A file that the restore will write.
#[derive(Debug)]
pub struct Change {
    /// Where it goes.
    pub target: String,
    /// Where its new content waits.
    pub staged: String,
    /// The destination's file when it was planned, if any.
    pub before: Option<Fingerprint>,
    /// Whether it is a database.
    pub database: bool,
}

/// The history index must be rebuilt when a history file changes and the destination has
/// a conversation database.
pub fn needs_reindex(changes: &Vec<Change>, state_exists: bool) -> (r: bool)
    ensures
        r == (state_exists && exists|i: int| 0 <= i < changes@.len() && !(#[trigger] changes@[i]).database),
{
    if !state_exists {
        return false;
    }
    let n = changes.len();
    let mut i: usize = 0;
    while i < n
        invariant
            n == changes@.len(),
            state_exists,
            i <= n,
            forall|j: int| 0 <= j < i ==> (#[trigger] changes@[j]).database,
        decreases n - i,
    {
        if !changes[i].database {
            proof {
                assert(!changes@[i as int].database);
            }
            return true;
        }
        i += 1;
    }
    false
}

/// The destination must still hold what was planned against: nothing where nothing was,
/// the same fingerprint where a file was.
pub fn preflight(target: &str, current: &Option<Fingerprint>, before: &Option<Fingerprint>) -> (r:
    Result<(), InjectError>)
    ensures
        r is Ok <==> preflight_ok(*current, *before),
        r matches Err(e) ==> e matches InjectError::DestinationChanged(t) && t@ == target@,
{
    let same = match (current, before) {
        (None, None) => true,
        (Some(c), Some(b)) => same_fingerprint(c, b),
        _ => false,
    };
    if same {
        Ok(())
    } else {
        Err(InjectError::DestinationChanged(target.to_owned()))
    }
}

/// The destination still holds what a change was planned against: nothing where nothing
/// was, the same fingerprint where a file was.
pub open spec fn preflight_ok(current: Option<Fingerprint>, before: Option<Fingerprint>) -> bool {
    match (current, before) {
        (None, None) => true,
        (Some(c), Some(b)) => c.size == b.size && c.sha256@ == b.sha256@,
        _ => false,
    }
}

/// Approves writing the changes only when every target still holds what its change was
/// planned against (`current` is what each target holds now); otherwise names the first
/// target that changed. Nothing may be written unless this succeeds.
pub fn approve_writes(changes: &Vec<Change>, current: &Vec<Option<Fingerprint>>) -> (r: Result<
    (),
    InjectError,
>)
    requires
        current@.len() == changes@.len(),
    ensures
        r is Ok <==> forall|i: int|
            0 <= i < changes@.len() ==> preflight_ok(#[trigger] current@[i], changes@[i].before),
        r matches Err(e) ==> exists|i: int|
            0 <= i < changes@.len() && !preflight_ok(#[trigger] current@[i], changes@[i].before)
                && (forall|k: int|
                0 <= k < i ==> preflight_ok(#[trigger] current@[k], changes@[k].before))
                && (e matches InjectError::DestinationChanged(t) && t@ == changes@[i].target@),
{
    let n = changes.len();
    let mut i: usize = 0;
    while i < n
        invariant
            n == changes@.len(),
            current@.len() == n,
            i <= n,
            forall|k: int| 0 <= k < i ==> preflight_ok(#[trigger] current@[k], changes@[k].before),
        decreases n - i,
    {
        let change = &changes[i];
        if let Err(e) = preflight(&change.target, &current[i], &change.before) {
            proof {
                assert(!preflight_ok(current@[i as int], changes@[i as int].before));
            }
            return Err(e);
        }
        i += 1;
    }
    Ok(())
}

/// How a change is written to its target.
#[derive(Debug, PartialEq, Eq, Structural, Clone, Copy)]
pub enum WriteAction {
    /// Restore the existing database in place from the staged copy.
    Restore,
    /// Replace the existing file atomically with the staged content.
    Replace,
    /// Create the target, which must not exist.
    CreateNew,
}

/// Chooses how a change is written, given whether its target exists now.
pub fn write_action(change: &Change, target_exists: bool) -> (a: WriteAction)
    ensures
        a == if change.database && target_exists {
            WriteAction::Restore
        } else if change.before is Some {
            WriteAction::Replace
        } else {
            WriteAction::CreateNew
        },
{
    if change.database && target_exists {
        WriteAction::Restore
    } else if change.before.is_some() {
        WriteAction::Replace
    } else {
        WriteAction::CreateNew
    }
}

/// A decimal digit.
pub open spec fn digit(d: nat) -> char {
    (48 + d) as char
}

/// A number in decimal, without leading zeros.
pub open spec fn decimal(n: nat) -> Seq<char>
    decreases n,
{
    if n < 10 {
        seq![digit(n)]
    } else {
        decimal(n / 10) + seq![digit(n % 10)]
    }
}

fn push_decimal(out: &mut String, n: usize)
    ensures
        final(out)@ == old(out)@ + decimal(n as nat),
    decreases n,
{
    if n >= 10 {
        push_decimal(out, n / 10);
    }
    let d = (n % 10) as u8;
    let c = (48u8 + d) as char;
    proof {
        assert(c == digit((n % 10) as nat));
    }
    out.push(c);
    proof {
        if n >= 10 {
            assert(old(out)@ + decimal((n / 10) as nat) + seq![c] =~= old(out)@ + decimal(
                n as nat,
            ));
        } else {
            assert(old(out)@.push(c) =~= old(out)@ + decimal(n as nat));
        }
    }
}

/// The name under which the original of the change at `index` is kept for recovery.
pub fn backup_name(index: usize) -> (s: String)
    ensures
        s@ == decimal(index as nat),
{
    let mut s = String::new();
    push_decimal(&mut s, index);
    proof {
        assert(Seq::<char>::empty() + decimal(index as nat) =~= decimal(index as nat));
    }
    s
}

/// The recovery-journal record of the change at `index`: its target, the name of the
/// kept original when the target existed (`null` otherwise), and whether it is a
/// database. Members in key order.
pub fn journal_record(change: &Change, index: usize, target_exists: bool) -> (j: Json)
    ensures
        j matches Json::Object(fields) && fields@.len() == 3
            && fields@[0].0@ == "backup"@ && (if target_exists {
                fields@[0].1 matches Json::Str(b) && b@ == decimal(index as nat)
            } else {
                fields@[0].1 matches Json::Null
            })
            && fields@[1].0@ == "database"@ && fields@[1].1 == Json::Bool(change.database)
            && fields@[2].0@ == "target"@ && (fields@[2].1 matches Json::Str(t) && t@
            == change.target@),
{
    let backup = if target_exists {
        Json::Str(backup_name(index))
    } else {
        Json::Null
    };
    let mut fields: Vec<(String, Json)> = Vec::new();
    fields.push(("backup".to_owned(), backup));
    fields.push(("database".to_owned(), Json::Bool(change.database)));
    fields.push(("target".to_owned(), Json::Str(change.target.clone())));
    Json::Object(fields)
}

/// Whether a merge left the destination's file as it was, so that nothing is written.
pub fn unchanged(local: &[u8], merged: &[u8]) -> (r: bool)
    ensures
        r == (local@ == merged@),
{
    if local.len() != merged.len() {
        return false;
    }
    let r = crate::text::starts_with_bytes(local, merged);
    proof {
        if r {
            assert(local@ =~= merged@);
        }
    }
    r
}

} // verus!

verus! {

/// The conversation-metadata database, whose recorded rollout paths move with a restore.
pub fn is_state_database(path: &str) -> (r: bool)
    ensures
        r == (path@ == "sqlite/state_5.sqlite"@),
{
    proof {
        reveal_strlit("sqlite/state_5.sqlite");
    }
    chars_eq(&chars_of(path), &chars_of("sqlite/state_5.sqlite"))
}

} // verus!

verus! {

/// Restoring never stages a database over an existing one, and stages no file whose
/// content the destination already holds.
pub proof fn law_plan_never_replaces_or_repeats(
    entry: Entry,
    history_only: bool,
    home: Seq<char>,
    sqlite_home: Seq<char>,
    before: Option<Fingerprint>,
    sibling_exists: Option<bool>,
)
    ensures
        ({
            let p = plan(entry, history_only, home, sqlite_home, before, sibling_exists);
            &&& (p matches Planned::Stage(_, database, _) && database) ==> before is None
            &&& (p is Stage && before is Some) ==> !(before->Some_0.size == entry.size
                && before->Some_0.sha256@ == entry.sha256@)
        }),
{
}

/// An entry is staged for merging exactly when the destination already holds a file at
/// its target; into a home that does not hold it (every file of a restore into a new
/// home), it is staged to be copied as a new file, at the target where it belongs.
pub proof fn law_plan_merges_only_existing_files(
    entry: Entry,
    history_only: bool,
    home: Seq<char>,
    sqlite_home: Seq<char>,
    before: Option<Fingerprint>,
    sibling_exists: Option<bool>,
)
    ensures
        ({
            let p = plan(entry, history_only, home, sqlite_home, before, sibling_exists);
            &&& p matches Planned::Stage(_, _, merge) ==> merge == (before is Some)
            &&& p matches Planned::Stage(target, database, _) ==> database == is_database_entry(
                entry.path@,
            ) && target == entry_target(entry.path@, home, sqlite_home)
            &&& (before is None && !(is_database_entry(entry.path@) && history_only) && (
            is_database_entry(entry.path@) || !entry.path@.contains('/') || sibling_exists
                == Some(false))) ==> p == Planned::Stage(
                entry_target(entry.path@, home, sqlite_home),
                is_database_entry(entry.path@),
                false,
            )
        }),
{
}

} // verus!
