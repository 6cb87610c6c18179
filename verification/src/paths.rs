//! Which relative paths a snapshot may hold, and how they map onto a Codex home.
use vstd::prelude::*;
use crate::text::{chars_eq, chars_of, contains_char, ends_with_chars, starts_with_chars};

verus! {

/// `p[i..j]` is one of the `/`-separated segments of `p`.
pub open spec fn is_segment(p: Seq<char>, i: int, j: int) -> bool {
    &&& 0 <= i <= j <= p.len()
    &&& (i == 0 || p[i - 1] == '/')
    &&& (j == p.len() || p[j] == '/')
    &&& forall|k: int| i <= k < j ==> p[k] != '/'
}

/// A segment that names a file or directory: not empty, not `.` and not `..`.
pub open spec fn normal_segment(seg: Seq<char>) -> bool {
    &&& seg.len() > 0
    &&& seg != seq!['.']
    &&& seg != seq!['.', '.']
}

/// Every `/`-separated segment of `p` is a normal name.
pub open spec fn segments_normal(p: Seq<char>) -> bool {
    forall|i: int, j: int| #[trigger] is_segment(p, i, j) ==> normal_segment(p.subrange(i, j))
}

/// The conversation databases a snapshot may carry, under `sqlite/`.
pub open spec fn is_database_name(name: Seq<char>) -> bool {
    name == "state_5.sqlite"@ || name == "thread_history_1.sqlite"@
}

/// A history file that a snapshot may carry.
pub open spec fn is_history_file(p: Seq<char>) -> bool {
    ||| p == "history.jsonl"@
    ||| p == "session_index.jsonl"@
    ||| ("sessions/"@.is_prefix_of(p) || "archived_sessions/"@.is_prefix_of(p)) && (
    ".jsonl"@.is_suffix_of(p) || ".jsonl.zst"@.is_suffix_of(p))
}

/// Whether a relative path may appear in a snapshot: one of the two databases under
/// `sqlite/`, or a plain relative path without `\`, `:` or empty, `.` or `..` segments
/// that names the input history, the name index or a (compressed) rollout.
pub open spec fn spec_allowed(p: Seq<char>) -> bool {
    if "sqlite/"@.is_prefix_of(p) {
        is_database_name(p.skip(7))
    } else {
        &&& !p.contains('\\')
        &&& !p.contains(':')
        &&& segments_normal(p)
        &&& is_history_file(p)
    }
}

/// Whether the segment `p[start..end]` is a normal name.
fn normal_segment_exec(p: &[char], start: usize, end: usize) -> (r: bool)
    requires
        start <= end <= p@.len(),
    ensures
        r == normal_segment(p@.subrange(start as int, end as int)),
{
    let len = end - start;
    if len == 0 {
        return false;
    }
    if len == 1 && p[start] == '.' {
        proof {
            assert(p@.subrange(start as int, end as int) =~= seq!['.']);
        }
        return false;
    }
    if len == 2 && p[start] == '.' && p[start + 1] == '.' {
        proof {
            assert(p@.subrange(start as int, end as int) =~= seq!['.', '.']);
        }
        return false;
    }
    proof {
        let seg = p@.subrange(start as int, end as int);
        if len == 1 {
            assert(seg[0] != '.');
            assert(seg != seq!['.']);
        }
        if len == 2 {
            assert(seg[0] != '.' || seg[1] != '.');
            assert(seg != seq!['.', '.']);
            assert(seg.len() != seq!['.'].len());
        }
        if len > 2 {
            assert(seg.len() != seq!['.'].len());
            assert(seg.len() != seq!['.', '.'].len());
        }
    }
    true
}

/// Whether every `/`-separated segment of `p` is a normal name.
pub fn segments_normal_exec(p: &[char]) -> (r: bool)
    ensures
        r == segments_normal(p@),
{
    let n = p.len();
    let mut start: usize = 0;
    let mut k: usize = 0;
    while k < n
        invariant
            n == p@.len(),
            start <= k <= n,
            start == 0 || p@[start - 1] == '/',
            forall|m: int| start <= m < k ==> p@[m] != '/',
            forall|i: int, j: int|
                #[trigger] is_segment(p@, i, j) && j < start ==> normal_segment(p@.subrange(i, j)),
        decreases n - k,
    {
        if p[k] == '/' {
            if !normal_segment_exec(p, start, k) {
                proof {
                    assert(is_segment(p@, start as int, k as int));
                }
                return false;
            }
            proof {
                assert forall|i: int, j: int|
                    #[trigger] is_segment(p@, i, j) && j < k + 1 implies normal_segment(
                    p@.subrange(i, j),
                ) by {
                    if j >= start {
                        if j < k {
                            assert(p@[j] == '/');
                        }
                        assert(j == k);
                        if i < start {
                            assert(p@[start - 1] == '/');
                        }
                        if i > start {
                            assert(p@[i - 1] == '/');
                        }
                        assert(i == start);
                    }
                }
            }
            start = k + 1;
        }
        k += 1;
    }
    if !normal_segment_exec(p, start, n) {
        proof {
            assert(is_segment(p@, start as int, n as int));
        }
        return false;
    }
    proof {
        assert forall|i: int, j: int| #[trigger] is_segment(p@, i, j) implies normal_segment(
            p@.subrange(i, j),
        ) by {
            if j >= start {
                if j < n {
                    assert(p@[j] == '/');
                }
                if i < start {
                    assert(p@[start - 1] == '/');
                }
                if i > start {
                    assert(p@[i - 1] == '/');
                }
                assert(i == start && j == n);
            }
        }
    }
    true
}

/// Whether a relative path may appear in a snapshot (see [`spec_allowed`]).
pub fn allowed(path: &str) -> (r: bool)
    ensures
        r == spec_allowed(path@),
{
    let p = chars_of(path);
    let sqlite = chars_of("sqlite/");
    proof {
        reveal_strlit("sqlite/");
        reveal_strlit("state_5.sqlite");
        reveal_strlit("thread_history_1.sqlite");
        reveal_strlit("history.jsonl");
        reveal_strlit("session_index.jsonl");
        reveal_strlit("sessions/");
        reveal_strlit("archived_sessions/");
        reveal_strlit(".jsonl");
        reveal_strlit(".jsonl.zst");
    }
    if starts_with_chars(&p, &sqlite) {
        let name = p.split_at(7).1;
        proof {
            assert(name@ =~= p@.skip(7));
        }
        let a = chars_eq(name, &chars_of("state_5.sqlite"));
        let b = chars_eq(name, &chars_of("thread_history_1.sqlite"));
        return a || b;
    }
    if contains_char(&p, '\\') || contains_char(&p, ':') || !segments_normal_exec(&p) {
        return false;
    }
    if chars_eq(&p, &chars_of("history.jsonl")) || chars_eq(&p, &chars_of("session_index.jsonl")) {
        return true;
    }
    let dir = starts_with_chars(&p, &chars_of("sessions/")) || starts_with_chars(
        &p,
        &chars_of("archived_sessions/"),
    );
    let ext = ends_with_chars(&p, &chars_of(".jsonl")) || ends_with_chars(
        &p,
        &chars_of(".jsonl.zst"),
    );
    dir && ext
}

} // verus!

verus! {

/// A relative path joined onto a base path, as `Path::join` does on Unix for a relative
/// argument: with a `/` between them unless the base is empty or already ends with one.
pub open spec fn join(base: Seq<char>, rel: Seq<char>) -> Seq<char> {
    if base.len() == 0 || base.last() == '/' {
        base + rel
    } else {
        base + seq!['/'] + rel
    }
}

/// Joins a relative path onto a base path (see [`join`]).
pub fn join_path(base: &str, rel: &str) -> (r: String)
    ensures
        r@ == join(base@, rel@),
{
    let b = chars_of(base);
    let mut out = crate::text::string_of(&b);
    if b.len() > 0 && b[b.len() - 1] != '/' {
        out.push('/');
    }
    crate::text::push_chars(&mut out, &chars_of(rel));
    out
}

/// The rollout stored the other way: without `.zst` when the path has it, with it
/// otherwise.
pub open spec fn sibling(target: Seq<char>) -> Seq<char> {
    if ".zst"@.is_suffix_of(target) {
        target.take(target.len() - 4)
    } else {
        target + ".zst"@
    }
}

/// The path of the same rollout stored the other way (see [`sibling`]).
pub fn sibling_path(target: &str) -> (r: String)
    ensures
        r@ == sibling(target@),
{
    proof {
        reveal_strlit(".zst");
    }
    let t = chars_of(target);
    let zst = chars_of(".zst");
    if ends_with_chars(&t, &zst) {
        let n = t.len() - 4;
        crate::text::string_of(t.split_at(n).0)
    } else {
        let mut out = crate::text::string_of(&t);
        crate::text::push_chars(&mut out, &zst);
        out
    }
}

/// What `Path::strip_prefix` gives back: the rest of `path` after the components of
/// `base`, or `None` when `base` is not a leading part of `path`.
pub uninterp spec fn path_strip_prefix(path: Seq<char>, base: Seq<char>) -> Option<Seq<char>>;

/// Calls `std::path::Path::strip_prefix` on UTF-8 paths. The contract only names the
/// result: a function of the two paths.
#[verifier::external_body]
fn strip_path_prefix(path: &str, base: &str) -> (r: Option<String>)
    ensures
        match r {
            Some(s) => path_strip_prefix(path@, base@) == Some(s@),
            None => path_strip_prefix(path@, base@) is None,
        },
{
    match std::path::Path::new(path).strip_prefix(base) {
        Ok(rest) => Some(rest.to_string_lossy().into_owned()),
        Err(_) => None,
    }
}

/// What `Path::starts_with` gives back: whether the components of `base` lead `path`.
pub uninterp spec fn path_within(path: Seq<char>, base: Seq<char>) -> bool;

/// `path` is `base` followed by `/` and whatever comes after: a path below `base`.
pub open spec fn below(path: Seq<char>, base: Seq<char>) -> bool {
    (base + seq!['/']).is_prefix_of(path)
}

/// Calls `std::path::Path::starts_with` on UTF-8 paths. The contract names the result, a
/// function of the two paths, and states what the documentation shows of it: the match is
/// by whole components, so a path starts with itself and with any path that it continues
/// after a `/`.
#[verifier::external_body]
pub(crate) fn path_starts_with(path: &str, base: &str) -> (r: bool)
    ensures
        r == path_within(path@, base@),
        path@ == base@ ==> r,
        below(path@, base@) ==> r,
{
    std::path::Path::new(path).starts_with(base)
}

/// Whether `path` lies within `base` by whole components (see [`path_within`]). A path
/// equal to `base`, or continuing it after a `/`, is decided here; the call decides the
/// other spellings (`.` components, repeated `/`).
pub fn is_within(path: &str, base: &str) -> (r: bool)
    ensures
        r == path_within(path@, base@),
        path@ == base@ ==> r,
        below(path@, base@) ==> r,
{
    let called = path_starts_with(path, base);
    let p = chars_of(path);
    let mut b = chars_of(base);
    let same = crate::text::chars_eq(&p, &b);
    b.push('/');
    proof {
        assert(b@ =~= base@ + seq!['/']);
    }
    called || same || starts_with_chars(&p, &b)
}

/// Why a rollout path recorded in the conversation database could not be moved to the new
/// Codex home.
#[derive(Debug)]
pub enum RelocateError {
    /// The rollout lies outside the snapshot's source home.
    OutsideSourceHome,
    /// The rollout's place inside the source home is not a history path.
    UnsupportedPath,
}

/// The new rollout path for a path recorded under the source home: the same relative
/// history path under the new home. Relative paths under `sqlite/` are refused.
pub open spec fn spec_relocate(old: Seq<char>, source_home: Seq<char>, home: Seq<char>) -> Result<
    Seq<char>,
    RelocateError,
> {
    match path_strip_prefix(old, source_home) {
        None => Err(RelocateError::OutsideSourceHome),
        Some(rel) => if spec_allowed(rel) && !"sqlite/"@.is_prefix_of(rel) {
            Ok(join(home, rel))
        } else {
            Err(RelocateError::UnsupportedPath)
        },
    }
}

/// Moves a recorded rollout path from the source home to the new home (see
/// [`spec_relocate`]).
pub fn relocate(old: &str, source_home: &str, home: &str) -> (r: Result<String, RelocateError>)
    ensures
        match (r, spec_relocate(old@, source_home@, home@)) {
            (Ok(p), Ok(q)) => p@ == q,
            (Err(RelocateError::OutsideSourceHome), Err(RelocateError::OutsideSourceHome)) => true,
            (Err(RelocateError::UnsupportedPath), Err(RelocateError::UnsupportedPath)) => true,
            _ => false,
        },
{
    proof {
        reveal_strlit("sqlite/");
    }
    let rel = match strip_path_prefix(old, source_home) {
        Some(r) => r,
        None => {
            return Err(RelocateError::OutsideSourceHome);
        },
    };
    if !allowed(rel.as_str()) || starts_with_chars(&chars_of(rel.as_str()), &chars_of("sqlite/")) {
        return Err(RelocateError::UnsupportedPath);
    }
    Ok(join_path(home, rel.as_str()))
}

} // verus!

verus! {

proof fn lemma_database_path_segments(p: Seq<char>)
    requires
        "sqlite/"@.is_prefix_of(p),
        is_database_name(p.skip(7)),
    ensures
        !p.contains('\\'),
        !p.contains(':'),
        segments_normal(p),
{
    reveal_strlit("sqlite/");
    reveal_strlit("state_5.sqlite");
    reveal_strlit("thread_history_1.sqlite");
    let name = p.skip(7);
    assert(p =~= "sqlite/"@ + name);
    assert forall|k: int| 0 <= k < p.len() implies p[k] != '\\' && p[k] != ':' && (p[k] == '/'
        <==> k == 6) by {
        if k < 7 {
            assert(p[k] == "sqlite/"@[k]);
        } else {
            assert(p[k] == name[k - 7]);
        }
    }
    assert forall|i: int, j: int| #[trigger] is_segment(p, i, j) implies normal_segment(
        p.subrange(i, j),
    ) by {
        assert(i == 0 || p[i - 1] == '/');
        assert(i == 0 || i == 7);
        assert(j == p.len() || j == 6);
        if i == 0 {
            if j == p.len() {
                assert(p[6] == '/');
            }
            assert(j == 6);
        } else {
            assert(j == p.len());
        }
        assert(p.subrange(i, j).len() > 2);
    }
}

/// A snapshot path stays inside the home it is restored to: it is relative, has no `\`
/// or `:`, and every `/`-separated segment names a file or directory (none is empty, `.`
/// or `..`).
pub proof fn law_allowed_paths_stay_inside(p: Seq<char>)
    requires
        spec_allowed(p),
    ensures
        p.len() > 0,
        p[0] != '/',
        !p.contains('\\'),
        !p.contains(':'),
        segments_normal(p),
{
    if "sqlite/"@.is_prefix_of(p) {
        lemma_database_path_segments(p);
    }
    if p.len() == 0 || p[0] == '/' {
        assert(is_segment(p, 0, 0));
    }
}

/// Every history path that a snapshot may hold moves from the source home to the same
/// place under the new home: rollouts, archived rollouts and the two history files alike.
/// Only databases and paths outside the source home stay where they are.
pub proof fn law_relocate_moves_every_history_path(
    old: Seq<char>,
    source_home: Seq<char>,
    home: Seq<char>,
    rel: Seq<char>,
)
    requires
        path_strip_prefix(old, source_home) == Some(rel),
        spec_allowed(rel),
    ensures
        !"sqlite/"@.is_prefix_of(rel) ==> spec_relocate(old, source_home, home) == Ok::<
            _,
            RelocateError,
        >(join(home, rel)),
        "archived_sessions/"@.is_prefix_of(rel) ==> spec_relocate(old, source_home, home)
            == Ok::<_, RelocateError>(join(home, rel)),
        "sessions/"@.is_prefix_of(rel) ==> spec_relocate(old, source_home, home) == Ok::<
            _,
            RelocateError,
        >(join(home, rel)),
        spec_relocate(old, source_home, home) is Ok ==> spec_relocate(old, source_home, home)
            == Ok::<_, RelocateError>(join(home, rel)),
{
    reveal_strlit("sqlite/");
    reveal_strlit("archived_sessions/");
    reveal_strlit("sessions/");
    if "archived_sessions/"@.is_prefix_of(rel) {
        assert(rel.subrange(0, 18)[0] == rel[0]);
        assert(rel[0] == 'a');
        if "sqlite/"@.is_prefix_of(rel) {
            assert(rel.subrange(0, 7)[0] == rel[0]);
        }
    }
    if "sessions/"@.is_prefix_of(rel) {
        assert(rel.subrange(0, 9)[1] == rel[1]);
        assert(rel[1] == 'e');
        if "sqlite/"@.is_prefix_of(rel) {
            assert(rel.subrange(0, 7)[1] == rel[1]);
        }
    }
}

/// A recorded path outside the source home is refused as such, and one that lies inside it
/// but is no history path a snapshot may hold (a database, or any other file) is refused
/// as unsupported; a refused path is never moved.
pub proof fn law_relocate_refuses_what_it_cannot_move(
    old: Seq<char>,
    source_home: Seq<char>,
    home: Seq<char>,
)
    ensures
        path_strip_prefix(old, source_home) is None ==> spec_relocate(old, source_home, home)
            == Err::<Seq<char>, _>(RelocateError::OutsideSourceHome),
        path_strip_prefix(old, source_home) matches Some(rel) && (!spec_allowed(rel)
            || "sqlite/"@.is_prefix_of(rel)) ==> spec_relocate(old, source_home, home) == Err::<
            Seq<char>,
            _,
        >(RelocateError::UnsupportedPath),
{
}

} // verus!
