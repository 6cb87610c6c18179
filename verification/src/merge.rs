//! Merging a history file from a snapshot into the same file of a Codex home.
//!
//! Rollouts merge only when one is a complete-line extension of the other; the input
//! history merges as the union of its records; the name index keeps, for each
//! conversation, the name with the latest `updated_at`.
use vstd::prelude::*;
use crate::json::{Json, JsonLine, json_member, member_str};
use crate::jsonl::{encode_lines, lemma_encode_push};
use crate::order::NameSet;
use crate::text::{chars_of, ends_with_chars, push_chars, starts_with_bytes};

verus! {

/// Why two versions of a history file could not be merged.
#[derive(Debug)]
pub enum MergeError {
    /// A compressed rollout could not be decompressed.
    Decompress,
    /// Neither rollout is a complete-line extension of the other.
    DivergentRollout,
    /// An incoming input-history record lacks `session_id`, `ts` or `text`.
    InvalidHistoryEntry,
    /// A name-index record has no string `id`.
    MissingIndexId,
    /// A name-index record has no string `thread_name`.
    MissingThreadName,
    /// A name-index record has no string `updated_at`.
    MissingUpdatedAt,
    /// A name-index `updated_at` is not an RFC 3339 date and time.
    InvalidTimestamp,
    /// Two different names for one conversation carry the same `updated_at`.
    ConflictingNames(String),
}

// ---------------------------------------------------------------------------------------
// Rollouts
// ---------------------------------------------------------------------------------------

/// What `zstd::stream::decode_all` gives back for an in-memory compressed input: the
/// decompressed bytes, or `None` when it fails.
pub uninterp spec fn zstd_decoded(data: Seq<u8>) -> Option<Seq<u8>>;

/// Calls `zstd::stream::decode_all` on a byte slice. Its contract only names the result:
/// the decompressed bytes are a function of the compressed bytes.
#[verifier::external_body]
pub(crate) fn zstd_decode(data: &[u8]) -> (r: Option<Vec<u8>>)
    ensures
        match r {
            Some(v) => zstd_decoded(data@) == Some(v@),
            None => zstd_decoded(data@) is None,
        },
{
    zstd::stream::decode_all(data).ok()
}

/// A rollout is stored compressed when its path ends in `.zst`.
pub open spec fn is_compressed(path: Seq<char>) -> bool {
    ".zst"@.is_suffix_of(path)
}

/// The conversation records of a stored rollout: its bytes, decompressed when needed.
pub open spec fn rollout_content(compressed: bool, raw: Seq<u8>) -> Option<Seq<u8>> {
    if compressed {
        zstd_decoded(raw)
    } else {
        Some(raw)
    }
}

/// Empty, or ending with a line feed: made of complete lines.
pub open spec fn line_complete(s: Seq<u8>) -> bool {
    s.len() == 0 || s.last() == 10u8
}

/// `longer` continues the complete lines of `shorter`.
pub open spec fn extends(longer: Seq<u8>, shorter: Seq<u8>) -> bool {
    shorter.is_prefix_of(longer) && line_complete(shorter)
}

/// Which stored rollout to keep, given the conversation records of each: the one whose
/// records extend the other's complete lines (the local one when both do).
pub open spec fn spec_choose_rollout(
    local: Seq<u8>,
    incoming: Seq<u8>,
    local_records: Seq<u8>,
    incoming_records: Seq<u8>,
) -> Result<Seq<u8>, MergeError> {
    if extends(local_records, incoming_records) {
        Ok(local)
    } else if extends(incoming_records, local_records) {
        Ok(incoming)
    } else {
        Err(MergeError::DivergentRollout)
    }
}

/// The merge of two stored versions of a rollout: the one whose records extend the
/// other's complete lines (the local one when both do), stored bytes unchanged.
pub open spec fn spec_merge_rollout(path: Seq<char>, local: Seq<u8>, incoming: Seq<u8>) -> Result<
    Seq<u8>,
    MergeError,
> {
    let c = is_compressed(path);
    match rollout_content(c, local) {
        None => Err(MergeError::Decompress),
        Some(a) => match rollout_content(c, incoming) {
            None => Err(MergeError::Decompress),
            Some(b) => spec_choose_rollout(local, incoming, a, b),
        },
    }
}

fn line_complete_exec(s: &[u8]) -> (r: bool)
    ensures
        r == line_complete(s@),
{
    s.len() == 0 || s[s.len() - 1] == 10u8
}

/// Picks the stored rollout to keep from the conversation records of both versions (see
/// [`spec_choose_rollout`]).
pub fn choose_rollout(
    local: &[u8],
    incoming: &[u8],
    local_records: &[u8],
    incoming_records: &[u8],
) -> (r: Result<Vec<u8>, MergeError>)
    ensures
        match (r, spec_choose_rollout(local@, incoming@, local_records@, incoming_records@)) {
            (Ok(v), Ok(w)) => v@ == w,
            (Err(MergeError::DivergentRollout), Err(MergeError::DivergentRollout)) => true,
            _ => false,
        },
{
    if starts_with_bytes(local_records, incoming_records) && line_complete_exec(incoming_records) {
        return Ok(vstd::slice::slice_to_vec(local));
    }
    if starts_with_bytes(incoming_records, local_records) && line_complete_exec(local_records) {
        return Ok(vstd::slice::slice_to_vec(incoming));
    }
    Err(MergeError::DivergentRollout)
}

/// Merges two stored versions of the rollout at `path` (see [`spec_merge_rollout`]).
pub fn merge_rollout(path: &str, local: &[u8], incoming: &[u8]) -> (r: Result<Vec<u8>, MergeError>)
    ensures
        match (r, spec_merge_rollout(path@, local@, incoming@)) {
            (Ok(v), Ok(w)) => v@ == w,
            (Err(MergeError::Decompress), Err(MergeError::Decompress)) => true,
            (Err(MergeError::DivergentRollout), Err(MergeError::DivergentRollout)) => true,
            _ => false,
        },
{
    proof {
        reveal_strlit(".zst");
    }
    if ends_with_chars(&chars_of(path), &chars_of(".zst")) {
        let a = match zstd_decode(local) {
            Some(x) => x,
            None => {
                return Err(MergeError::Decompress);
            },
        };
        let b = match zstd_decode(incoming) {
            Some(x) => x,
            None => {
                return Err(MergeError::Decompress);
            },
        };
        choose_rollout(local, incoming, &a, &b)
    } else {
        choose_rollout(local, incoming, local, incoming)
    }
}

// ---------------------------------------------------------------------------------------
// Input history
// ---------------------------------------------------------------------------------------

/// The texts of a sequence of JSON lines.
pub open spec fn texts(records: Seq<JsonLine>) -> Seq<Seq<char>> {
    records.map_values(|r: JsonLine| r.text@)
}

/// An input-history record names its session, its time and its text.
pub open spec fn history_entry_valid(v: Json) -> bool {
    &&& member_str(v, "session_id"@) is Some
    &&& (match json_member(v, "ts"@) {
        Some(Json::UInt(_)) => true,
        _ => false,
    })
    &&& member_str(v, "text"@) is Some
}

/// The merged input history: the local lines and then the incoming lines, each distinct
/// line once, where it first occurs. Fails when any incoming record is invalid.
pub open spec fn spec_merge_history(local: Seq<JsonLine>, incoming: Seq<JsonLine>) -> Option<
    Seq<Seq<char>>,
> {
    if exists|i: int| 0 <= i < incoming.len() && !history_entry_valid(#[trigger] incoming[i].value) {
        None
    } else {
        Some((texts(local) + texts(incoming)).remove_duplicates(seq![]))
    }
}

fn history_entry_valid_exec(v: &Json) -> (r: bool)
    ensures
        r == history_entry_valid(*v),
{
    proof {
        reveal_strlit("session_id");
        reveal_strlit("ts");
        reveal_strlit("text");
    }
    v.member_str("session_id").is_some() && v.member_is_u64("ts") && v.member_str(
        "text",
    ).is_some()
}

/// One step of the merge: `line` is written when it is not among the lines read so far.
proof fn lemma_dedup_step(read: Seq<Seq<char>>, line: Seq<char>)
    ensures
        read.contains(line) ==> (read + seq![line]).remove_duplicates(seq![])
            == read.remove_duplicates(seq![]),
        !read.contains(line) ==> (read + seq![line]).remove_duplicates(seq![])
            == read.remove_duplicates(seq![]).push(line),
        forall|y: Seq<char>| #[trigger]
            read.remove_duplicates(seq![]).contains(y) <==> read.contains(y),
{
    assert(read + seq![] =~= read);
    read.lemma_remove_duplicates_append(line, seq![]);
    read.lemma_remove_duplicates_properties(seq![]);
    assert(read.remove_duplicates(seq![]) + seq![line] =~= read.remove_duplicates(seq![]).push(
        line,
    ));
}

/// Writes `line` unless `seen` already holds it.
fn write_new_line(out: &mut String, seen: &mut NameSet, line: &String, Ghost(read): Ghost<
    Seq<Seq<char>>,
>)
    requires
        old(out)@ == encode_lines(read.remove_duplicates(seq![])),
        forall|y: Seq<char>| old(seen).contains(y) <==> read.contains(y),
    ensures
        final(out)@ == encode_lines((read + seq![line@]).remove_duplicates(seq![])),
        forall|y: Seq<char>| final(seen).contains(y) <==> (read + seq![line@]).contains(y),
{
    let t = chars_of(line.as_str());
    proof {
        lemma_dedup_step(read, line@);
        crate::text::lemma_push_contains(read, line@);
        assert(read + seq![line@] =~= read.push(line@));
    }
    if seen.insert(t) {
        push_chars(out, &chars_of(line.as_str()));
        out.push('\n');
        proof {
            lemma_encode_push(read.remove_duplicates(seq![]), line@);
        }
    }
}

/// Merges two versions of the input history (see [`spec_merge_history`]); the result is
/// written as JSON Lines.
pub fn merge_history(local: &Vec<JsonLine>, incoming: &Vec<JsonLine>) -> (r: Result<
    String,
    MergeError,
>)
    ensures
        match spec_merge_history(local@, incoming@) {
            Some(lines) => r matches Ok(out) && out@ == encode_lines(lines),
            None => r matches Err(MergeError::InvalidHistoryEntry),
        },
{
    let mut seen = NameSet::new();
    let mut out = String::new();
    let ghost l = texts(local@);
    let ghost s = texts(incoming@);
    proof {
        assert(l.take(0) =~= seq![]);
    }
    let n = local.len();
    let mut i: usize = 0;
    while i < n
        invariant
            n == local@.len(),
            i <= n,
            l == texts(local@),
            out@ == encode_lines(l.take(i as int).remove_duplicates(seq![])),
            forall|y: Seq<char>| seen.contains(y) <==> l.take(i as int).contains(y),
        decreases n - i,
    {
        write_new_line(&mut out, &mut seen, &local[i].text, Ghost(l.take(i as int)));
        proof {
            assert(l.take(i + 1) =~= l.take(i as int) + seq![local@[i as int].text@]);
        }
        i += 1;
    }
    proof {
        assert(l.take(n as int) =~= l + s.take(0));
    }
    let m = incoming.len();
    let mut j: usize = 0;
    while j < m
        invariant
            m == incoming@.len(),
            j <= m,
            l == texts(local@),
            s == texts(incoming@),
            forall|k: int| 0 <= k < j ==> history_entry_valid(#[trigger] incoming@[k].value),
            out@ == encode_lines((l + s.take(j as int)).remove_duplicates(seq![])),
            forall|y: Seq<char>| seen.contains(y) <==> (l + s.take(j as int)).contains(y),
        decreases m - j,
    {
        if !history_entry_valid_exec(&incoming[j].value) {
            return Err(MergeError::InvalidHistoryEntry);
        }
        write_new_line(&mut out, &mut seen, &incoming[j].text, Ghost(l + s.take(j as int)));
        proof {
            assert(l + s.take(j + 1) =~= (l + s.take(j as int)) + seq![incoming@[j as int].text@]);
        }
        j += 1;
    }
    proof {
        assert(s.take(m as int) =~= s);
        assert(!exists|i: int|
            0 <= i < incoming@.len() && !history_entry_valid(#[trigger] incoming@[i].value));
    }
    Ok(out)
}
} // verus!

verus! {

/// Merging never rolls a conversation back: the merged rollout's records continue the
/// complete lines of both versions.
pub proof fn law_rollout_never_rolls_back(path: Seq<char>, local: Seq<u8>, incoming: Seq<u8>)
    requires
        spec_merge_rollout(path, local, incoming) is Ok,
    ensures
        ({
            let c = is_compressed(path);
            let merged = spec_merge_rollout(path, local, incoming)->Ok_0;
            &&& rollout_content(c, merged) is Some
            &&& rollout_content(c, local) is Some
            &&& rollout_content(c, incoming) is Some
            &&& rollout_content(c, local)->Some_0.is_prefix_of(rollout_content(c, merged)->Some_0)
            &&& rollout_content(c, incoming)->Some_0.is_prefix_of(
                rollout_content(c, merged)->Some_0,
            )
        }),
{
    let c = is_compressed(path);
    let a = rollout_content(c, local)->Some_0;
    let b = rollout_content(c, incoming)->Some_0;
    assert(a.is_prefix_of(a));
    assert(b.is_prefix_of(b));
}

/// Which side is local does not matter: the merge succeeds both ways or neither, with the
/// same conversation records; an uncompressed rollout merges to the same bytes.
pub proof fn law_rollout_symmetric(path: Seq<char>, x: Seq<u8>, y: Seq<u8>)
    ensures
        (spec_merge_rollout(path, x, y) is Ok) == (spec_merge_rollout(path, y, x) is Ok),
        spec_merge_rollout(path, x, y) is Ok ==> rollout_content(
            is_compressed(path),
            spec_merge_rollout(path, x, y)->Ok_0,
        ) == rollout_content(is_compressed(path), spec_merge_rollout(path, y, x)->Ok_0),
        spec_merge_rollout(path, x, y) is Ok && !is_compressed(path) ==> spec_merge_rollout(
            path,
            x,
            y,
        ) == spec_merge_rollout(path, y, x),
{
    let c = is_compressed(path);
    if rollout_content(c, x) is Some && rollout_content(c, y) is Some {
        let a = rollout_content(c, x)->Some_0;
        let b = rollout_content(c, y)->Some_0;
        if extends(a, b) && extends(b, a) {
            assert(a =~= b);
        }
    }
}

/// A rollout of complete lines merges with itself into itself.
pub proof fn law_rollout_identical(path: Seq<char>, x: Seq<u8>)
    requires
        rollout_content(is_compressed(path), x) is Some,
        line_complete(rollout_content(is_compressed(path), x)->Some_0),
    ensures
        spec_merge_rollout(path, x, x) == Ok::<_, MergeError>(x),
{
    let a = rollout_content(is_compressed(path), x)->Some_0;
    assert(a.is_prefix_of(a));
}

proof fn lemma_dedup_shape(s: Seq<Seq<char>>, seen: Seq<Seq<char>>)
    ensures
        seen.is_prefix_of(s.remove_duplicates(seen)),
        s.remove_duplicates(seen).skip(seen.len() as int).no_duplicates(),
        forall|x: Seq<char>| #[trigger]
            s.remove_duplicates(seen).skip(seen.len() as int).contains(x) ==> !seen.contains(x)
                && s.contains(x),
    decreases s.len(),
{
    if s.len() > 0 {
        let rest = s.skip(1);
        if seen.contains(s[0]) {
            lemma_dedup_shape(rest, seen);
            assert forall|x: Seq<char>| #[trigger]
                s.remove_duplicates(seen).skip(seen.len() as int).contains(x) implies s.contains(x) by {
                assert(rest.contains(x));
                let k = choose|k: int| 0 <= k < rest.len() && rest[k] == x;
                assert(s[k + 1] == x);
            }
        } else {
            let seen2 = seen + seq![s[0]];
            lemma_dedup_shape(rest, seen2);
            let r = s.remove_duplicates(seen);
            assert(r == rest.remove_duplicates(seen2));
            assert(seen.is_prefix_of(r)) by {
                assert(seen =~= seen2.subrange(0, seen.len() as int));
                assert(seen2 =~= r.subrange(0, seen2.len() as int));
                assert(seen =~= r.subrange(0, seen.len() as int));
            }
            let t = r.skip(seen.len() as int);
            let t2 = r.skip(seen2.len() as int);
            assert(t =~= seq![s[0]] + t2) by {
                assert(r[seen.len() as int] == seen2[seen.len() as int]);
            }
            assert forall|x: Seq<char>| #[trigger] t.contains(x) implies !seen.contains(x)
                && s.contains(x) by {
                let k = choose|k: int| 0 <= k < t.len() && t[k] == x;
                if k == 0 {
                    assert(s[0] == x);
                } else {
                    assert(t2[k - 1] == x);
                    assert(t2.contains(x));
                    assert(!seen2.contains(x));
                    if seen.contains(x) {
                        let q = choose|q: int| 0 <= q < seen.len() && seen[q] == x;
                        assert(seen2[q] == x);
                    }
                    assert(rest.contains(x));
                    let q = choose|q: int| 0 <= q < rest.len() && rest[q] == x;
                    assert(s[q + 1] == x);
                }
            }
            assert(t.no_duplicates()) by {
                assert forall|p: int, q: int| 0 <= p < t.len() && 0 <= q < t.len() && p != q implies t[p]
                    != t[q] by {
                    if p == 0 && q > 0 {
                        assert(t2.contains(t[q])) by {
                            assert(t2[q - 1] == t[q]);
                        }
                        assert(seen2[seen.len() as int] == s[0]);
                    } else if q == 0 && p > 0 {
                        assert(t2.contains(t[p])) by {
                            assert(t2[p - 1] == t[p]);
                        }
                        assert(seen2[seen.len() as int] == s[0]);
                    } else if p > 0 && q > 0 {
                        assert(t2[p - 1] == t[p] && t2[q - 1] == t[q]);
                    }
                }
            }
        }
    } else {
        assert(seen.is_prefix_of(seen));
        assert(seen.skip(seen.len() as int) =~= Seq::<Seq<char>>::empty());
    }
}

proof fn lemma_dedup_all_seen(s: Seq<Seq<char>>, seen: Seq<Seq<char>>)
    requires
        forall|i: int| 0 <= i < s.len() ==> seen.contains(#[trigger] s[i]),
    ensures
        s.remove_duplicates(seen) == seen,
    decreases s.len(),
{
    if s.len() > 0 {
        assert(seen.contains(s[0]));
        let rest = s.skip(1);
        assert forall|i: int| 0 <= i < rest.len() implies seen.contains(#[trigger] rest[i]) by {
            assert(rest[i] == s[i + 1]);
        }
        lemma_dedup_all_seen(rest, seen);
    }
}

proof fn lemma_dedup_fresh(s: Seq<Seq<char>>, seen: Seq<Seq<char>>)
    requires
        s.no_duplicates(),
        forall|i: int| 0 <= i < s.len() ==> !seen.contains(#[trigger] s[i]),
    ensures
        s.remove_duplicates(seen) == seen + s,
    decreases s.len(),
{
    if s.len() == 0 {
        assert(seen + s =~= seen);
    } else {
        let rest = s.skip(1);
        let seen2 = seen + seq![s[0]];
        assert(!seen.contains(s[0]));
        assert forall|i: int| 0 <= i < rest.len() implies !seen2.contains(#[trigger] rest[i]) by {
            assert(rest[i] == s[i + 1]);
            assert(!seen.contains(s[i + 1]));
            if seen2.contains(rest[i]) {
                let k = choose|k: int| 0 <= k < seen2.len() && seen2[k] == rest[i];
                if k < seen.len() {
                    assert(seen[k] == rest[i]);
                } else {
                    assert(s[0] == s[i + 1]);
                }
            }
        }
        assert(rest.no_duplicates()) by {
            assert forall|p: int, q: int| 0 <= p < rest.len() && 0 <= q < rest.len() && p != q implies rest[p]
                != rest[q] by {
                assert(rest[p] == s[p + 1] && rest[q] == s[q + 1]);
            }
        }
        lemma_dedup_fresh(rest, seen2);
        assert(seen2 + rest =~= seen + s);
    }
}

/// The merged input history is the union of both sides' records with every repeat
/// dropped: no two of its lines are equal, it holds exactly the lines of either side, and
/// it lists the distinct local lines in their order, then the incoming lines not seen
/// before in theirs.
pub proof fn law_history_union(local: Seq<JsonLine>, incoming: Seq<JsonLine>)
    requires
        spec_merge_history(local, incoming) is Some,
    ensures
        ({
            let lines = spec_merge_history(local, incoming)->Some_0;
            let kept = texts(local).remove_duplicates(seq![]);
            &&& lines.no_duplicates()
            &&& forall|x: Seq<char>| #[trigger]
                lines.contains(x) <==> (texts(local).contains(x) || texts(incoming).contains(x))
            &&& kept.is_prefix_of(lines)
            &&& lines == texts(incoming).remove_duplicates(kept)
        }),
{
    let l = texts(local);
    let s = texts(incoming);
    let a = l + s;
    let lines = a.remove_duplicates(seq![]);
    let kept = l.remove_duplicates(seq![]);
    lemma_dedup_shape(a, seq![]);
    assert(lines.skip(0) =~= lines);
    a.lemma_remove_duplicates_properties(seq![]);
    assert(a + seq![] =~= a);
    assert forall|x: Seq<char>| #[trigger] lines.contains(x) <==> (l.contains(x) || s.contains(x)) by {
        if a.contains(x) {
            let k = choose|k: int| 0 <= k < a.len() && a[k] == x;
            if k < l.len() {
                assert(l[k] == x);
            } else {
                assert(s[k - l.len()] == x);
            }
        }
        if l.contains(x) {
            let k = choose|k: int| 0 <= k < l.len() && l[k] == x;
            assert(a[k] == x);
        }
        if s.contains(x) {
            let k = choose|k: int| 0 <= k < s.len() && s[k] == x;
            assert(a[k + l.len()] == x);
        }
    }
    if s.len() > 0 {
        a.lemma_remove_duplicates_append_index(l.len() as int, seq![]);
        assert(a.take(l.len() as int) =~= l);
        assert(a.skip(l.len() as int) =~= s);
    } else {
        assert(a =~= l);
    }
    lemma_dedup_shape(s, kept);
}

/// Merging the same incoming history again changes nothing: a home that already holds the
/// merge result merges it with the same incoming records into the same lines.
pub proof fn law_history_idempotent(
    local: Seq<JsonLine>,
    incoming: Seq<JsonLine>,
    merged: Seq<JsonLine>,
)
    requires
        spec_merge_history(local, incoming) is Some,
        texts(merged) == spec_merge_history(local, incoming)->Some_0,
    ensures
        spec_merge_history(merged, incoming) == spec_merge_history(local, incoming),
{
    let m = texts(merged);
    let s = texts(incoming);
    law_history_union(local, incoming);
    assert forall|i: int| 0 <= i < m.len() implies !Seq::<Seq<char>>::empty().contains(
        #[trigger] m[i],
    ) by {}
    lemma_dedup_fresh(m, seq![]);
    assert(Seq::<Seq<char>>::empty() + m =~= m);
    assert forall|i: int| 0 <= i < s.len() implies m.contains(#[trigger] s[i]) by {
        assert(s.contains(s[i]));
    }
    if s.len() > 0 {
        (m + s).lemma_remove_duplicates_append_index(m.len() as int, seq![]);
        assert((m + s).take(m.len() as int) =~= m);
        assert((m + s).skip(m.len() as int) =~= s);
        lemma_dedup_all_seen(s, m);
    } else {
        assert(m + s =~= m);
    }
}

} // verus!
