//! What the listing of a snapshot shows: the first record of each rollout.
use vstd::prelude::*;
use crate::merge::{is_compressed, rollout_content, zstd_decode};
use crate::text::{chars_of, ends_with_chars, starts_with_chars};

verus! {

/// A rollout path: under `sessions/` or `archived_sessions/`.
pub open spec fn is_rollout_path(p: Seq<char>) -> bool {
    "sessions/"@.is_prefix_of(p) || "archived_sessions/"@.is_prefix_of(p)
}

/// Whether a snapshot entry is a rollout (see [`is_rollout_path`]).
pub fn is_rollout_entry(path: &str) -> (r: bool)
    ensures
        r == is_rollout_path(path@),
{
    proof {
        reveal_strlit("sessions/");
        reveal_strlit("archived_sessions/");
    }
    let p = chars_of(path);
    starts_with_chars(&p, &chars_of("sessions/")) || starts_with_chars(
        &p,
        &chars_of("archived_sessions/"),
    )
}

/// The records of a stored rollout: decompressed when its path ends in `.zst`, as stored
/// otherwise; `None` when decompression fails.
pub fn rollout_records(path: &str, raw: &[u8]) -> (r: Option<Vec<u8>>)
    ensures
        match r {
            Some(v) => rollout_content(is_compressed(path@), raw@) == Some(v@),
            None => rollout_content(is_compressed(path@), raw@) is None,
        },
{
    proof {
        reveal_strlit(".zst");
    }
    if ends_with_chars(&chars_of(path), &chars_of(".zst")) {
        zstd_decode(raw)
    } else {
        Some(vstd::slice::slice_to_vec(raw))
    }
}

/// The bytes before the first line feed (all of them when there is none).
pub open spec fn spec_first_line(bytes: Seq<u8>) -> Seq<u8> {
    if exists|i: int| 0 <= i < bytes.len() && bytes[i] == 10u8 {
        let i = choose|i: int|
            0 <= i < bytes.len() && bytes[i] == 10u8 && forall|k: int|
                0 <= k < i ==> bytes[k] != 10u8;
        bytes.take(i)
    } else {
        bytes
    }
}

/// The first line of some bytes (see [`spec_first_line`]).
pub fn first_line(bytes: &[u8]) -> (r: Vec<u8>)
    ensures
        r@ == spec_first_line(bytes@),
{
    let n = bytes.len();
    let mut i: usize = 0;
    while i < n
        invariant
            n == bytes@.len(),
            i <= n,
            forall|k: int| 0 <= k < i ==> bytes@[k] != 10u8,
        decreases n - i,
    {
        if bytes[i] == 10u8 {
            let r = vstd::slice::slice_to_vec(bytes.split_at(i).0);
            proof {
                let c = choose|c: int|
                    0 <= c < bytes@.len() && bytes@[c] == 10u8 && forall|k: int|
                        0 <= k < c ==> bytes@[k] != 10u8;
                if c < i {
                } else if c > i {
                    assert(bytes@[i as int] == 10u8);
                }
                assert(c == i);
                assert(r@ =~= bytes@.take(i as int));
            }
            return r;
        }
        i += 1;
    }
    vstd::slice::slice_to_vec(bytes)
}

} // verus!
