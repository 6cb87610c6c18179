//! File fingerprints: size and SHA-256 digest in lower-case hexadecimal.
use vstd::prelude::*;
use sha2::Digest;
use crate::text::string_of;

verus! {

/// What `sha2::Sha256::digest` gives back for some bytes: their SHA-256 digest.
pub uninterp spec fn sha256_digest(data: Seq<u8>) -> Seq<u8>;

/// Calls `sha2::Sha256::digest`. The contract names the result, a function of the bytes,
/// and says what the digest type fixes: it is 32 bytes long.
#[verifier::external_body]
fn sha256(data: &[u8]) -> (d: Vec<u8>)
    ensures
        d@ == sha256_digest(data@),
        d@.len() == 32,
{
    sha2::Sha256::digest(data).to_vec()
}

/// The lower-case hexadecimal digit for a value below 16.
pub open spec fn hex_digit(v: int) -> char {
    if 0 <= v < 10 {
        ((v + 48) as u8) as char
    } else {
        ((v - 10 + 97) as u8) as char
    }
}

/// Bytes in lower-case hexadecimal, two digits per byte, high digit first (how a digest
/// prints with `{:x}`).
pub open spec fn hex_lower(bytes: Seq<u8>) -> Seq<char>
    decreases bytes.len(),
{
    if bytes.len() == 0 {
        seq![]
    } else {
        hex_lower(bytes.drop_last()) + seq![
            hex_digit(bytes.last() as int / 16),
            hex_digit(bytes.last() as int % 16),
        ]
    }
}

fn hex_digit_exec(v: u8) -> (c: char)
    requires
        v < 16,
    ensures
        c == hex_digit(v as int),
{
    if v < 10 {
        (v + 48) as char
    } else {
        (v - 10 + 97) as char
    }
}

/// Writes bytes in lower-case hexadecimal (see [`hex_lower`]).
pub fn to_hex_lower(bytes: &[u8]) -> (s: String)
    ensures
        s@ == hex_lower(bytes@),
{
    let mut out: Vec<char> = Vec::new();
    let n = bytes.len();
    let mut i: usize = 0;
    while i < n
        invariant
            n == bytes@.len(),
            i <= n,
            out@ == hex_lower(bytes@.take(i as int)),
        decreases n - i,
    {
        let b = bytes[i];
        out.push(hex_digit_exec(b / 16));
        out.push(hex_digit_exec(b % 16));
        proof {
            assert(bytes@.take(i + 1).drop_last() =~= bytes@.take(i as int));
            assert(out@ =~= hex_lower(bytes@.take(i as int)) + seq![
                hex_digit(b as int / 16),
                hex_digit(b as int % 16),
            ]);
        }
        i += 1;
    }
    proof {
        assert(bytes@.take(n as int) =~= bytes@);
    }
    string_of(&out)
}

/// The size and content digest of a file.
#[derive(Debug)]
pub struct Fingerprint {
    pub size: u64,
    pub sha256: String,
}

/// The fingerprint of some content: its length and its SHA-256 digest in lower-case
/// hexadecimal.
pub fn fingerprint(data: &[u8]) -> (f: Fingerprint)
    requires
        data@.len() <= u64::MAX,
    ensures
        f.size == data@.len(),
        f.sha256@ == hex_lower(sha256_digest(data@)),
{
    let d = sha256(data);
    Fingerprint { size: data.len() as u64, sha256: to_hex_lower(&d) }
}

/// Whether two fingerprints are the same.
pub fn same_fingerprint(a: &Fingerprint, b: &Fingerprint) -> (r: bool)
    ensures
        r == (a.size == b.size && a.sha256@ == b.sha256@),
{
    a.size == b.size && a.sha256 == b.sha256
}

} // verus!
