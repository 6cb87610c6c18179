//! The inventory of a Codex home: which of the files found under its history roots go
//! into a snapshot.
use vstd::prelude::*;
use crate::order::{insert_sorted, names_view, sorted};
use crate::paths::{allowed, spec_allowed};
use crate::text::{chars_of, string_of};

verus! {

/// What a directory walk found at a path.
#[derive(Debug, Clone, Copy, PartialEq, Eq, Structural)]
pub enum EntryKind {
    File,
    Dir,
    Symlink,
    Other,
}

/// One entry of a directory walk: its path relative to the Codex home, as the platform
/// writes it, and its kind (symbolic links are not followed).
#[derive(Debug)]
pub struct WalkEntry {
    pub relative: String,
    pub kind: EntryKind,
}

/// Why a Codex home could not be inventoried.
#[derive(Debug)]
pub enum InventoryError {
    /// A symbolic link under a history root.
    Symlink(String),
    /// A history path that is not a regular file.
    NotRegularFile(String),
}

/// A relative path with `/` separators.
pub open spec fn normalize(s: Seq<char>) -> Seq<char> {
    s.map_values(|c: char|
        if c == '\\' {
            '/'
        } else {
            c
        })
}

/// An entry that stops the inventory: a symbolic link, or something other than a regular
/// file at a history path.
pub open spec fn entry_fails(e: WalkEntry) -> bool {
    e.kind == EntryKind::Symlink || (e.kind != EntryKind::Dir && spec_allowed(
        normalize(e.relative@),
    ) && e.kind != EntryKind::File)
}

/// An entry that goes into the snapshot.
pub open spec fn entry_selected(e: WalkEntry) -> bool {
    e.kind != EntryKind::Dir && spec_allowed(normalize(e.relative@))
}

/// The history paths among the first `n` entries, in walk order.
pub open spec fn selected_paths(entries: Seq<WalkEntry>, n: int) -> Seq<Seq<char>>
    decreases n,
{
    if n <= 0 {
        seq![]
    } else if entry_selected(entries[n - 1]) {
        selected_paths(entries, n - 1).push(normalize(entries[n - 1].relative@))
    } else {
        selected_paths(entries, n - 1)
    }
}

fn normalize_exec(s: &str) -> (v: Vec<char>)
    ensures
        v@ == normalize(s@),
{
    let c = chars_of(s);
    let mut v: Vec<char> = Vec::new();
    let n = c.len();
    let mut i: usize = 0;
    while i < n
        invariant
            n == c@.len(),
            c@ == s@,
            i <= n,
            v@ == normalize(c@.take(i as int)),
        decreases n - i,
    {
        let ch = c[i];
        v.push(
            if ch == '\\' {
                '/'
            } else {
                ch
            },
        );
        proof {
            assert(normalize(c@.take(i + 1)) =~= normalize(c@.take(i as int)).push(
                if ch == '\\' {
                    '/'
                } else {
                    ch
                },
            ));
        }
        i += 1;
    }
    proof {
        assert(c@.take(n as int) =~= c@);
    }
    v
}

/// Selects the history files among the entries of a walk of the history roots: fails at
/// the first symbolic link, or the first history path that is not a regular file;
/// otherwise gives the history paths with `/` separators, sorted.
pub fn inventory(entries: &Vec<WalkEntry>) -> (r: Result<Vec<String>, InventoryError>)
    ensures
        r is Ok <==> forall|i: int| 0 <= i < entries@.len() ==> !entry_fails(#[trigger] entries@[i]),
        r matches Ok(paths) ==> {
            let v = paths@.map_values(|p: String| p@);
            &&& sorted(v)
            &&& v.to_multiset() == selected_paths(entries@, entries@.len() as int).to_multiset()
        },
        r matches Err(InventoryError::Symlink(p)) ==> exists|i: int|
            0 <= i < entries@.len() && entries@[i].kind == EntryKind::Symlink && p@
                == entries@[i].relative@ && forall|j: int|
                0 <= j < i ==> !entry_fails(#[trigger] entries@[j]),
        r matches Err(InventoryError::NotRegularFile(p)) ==> exists|i: int|
            0 <= i < entries@.len() && entries@[i].kind != EntryKind::Symlink && entry_fails(
                entries@[i],
            ) && p@ == normalize(entries@[i].relative@) && forall|j: int|
                0 <= j < i ==> !entry_fails(#[trigger] entries@[j]),
{
    let mut found: Vec<Vec<char>> = Vec::new();
    let n = entries.len();
    let mut i: usize = 0;
    proof {
        assert(names_view(found@) =~= selected_paths(entries@, 0));
    }
    while i < n
        invariant
            n == entries@.len(),
            i <= n,
            forall|j: int| 0 <= j < i ==> !entry_fails(#[trigger] entries@[j]),
            sorted(names_view(found@)),
            names_view(found@).to_multiset() == selected_paths(entries@, i as int).to_multiset(),
        decreases n - i,
    {
        let e = &entries[i];
        if e.kind == EntryKind::Symlink {
            proof {
                assert(entry_fails(entries@[i as int]));
            }
            return Err(InventoryError::Symlink(e.relative.clone()));
        }
        if e.kind != EntryKind::Dir {
            let rel = normalize_exec(e.relative.as_str());
            let rel_string = string_of(&rel);
            if allowed(rel_string.as_str()) {
                if e.kind != EntryKind::File {
                    proof {
                        assert(entry_fails(entries@[i as int]));
                    }
                    return Err(InventoryError::NotRegularFile(rel_string));
                }
                let ghost relv = rel@;
                insert_sorted(&mut found, rel);
                proof {
                    broadcast use vstd::seq_lib::group_to_multiset_ensures;
                    assert(selected_paths(entries@, i + 1) == selected_paths(entries@, i as int).push(
                        relv,
                    ));
                }
            }
        }
        i += 1;
    }
    let mut out: Vec<String> = Vec::new();
    let m = found.len();
    let mut k: usize = 0;
    while k < m
        invariant
            m == found@.len(),
            k <= m,
            out@.map_values(|p: String| p@) == names_view(found@).take(k as int),
        decreases m - k,
    {
        out.push(string_of(&found[k]));
        proof {
            assert(names_view(found@).take(k + 1) =~= names_view(found@).take(k as int).push(
                found@[k as int]@,
            ));
            assert(out@.map_values(|p: String| p@) =~= names_view(found@).take(k + 1));
        }
        k += 1;
    }
    proof {
        assert(names_view(found@).take(m as int) =~= names_view(found@));
    }
    Ok(out)
}

} // verus!

verus! {

/// The places under a Codex home that hold its history, walked in this order.
pub fn history_roots() -> (roots: Vec<&'static str>)
    ensures
        roots@.len() == 4,
        roots@[0]@ == "sessions"@,
        roots@[1]@ == "archived_sessions"@,
        roots@[2]@ == "history.jsonl"@,
        roots@[3]@ == "session_index.jsonl"@,
{
    let mut roots = Vec::new();
    roots.push("sessions");
    roots.push("archived_sessions");
    roots.push("history.jsonl");
    roots.push("session_index.jsonl");
    roots
}

} // verus!
