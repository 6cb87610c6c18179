//! Character and byte sequence helpers shared by the rest of the library.
use vstd::prelude::*;

verus! {

/// `String::push` appends one character.
pub assume_specification[ String::push ](s: &mut String, ch: char)
    ensures
        final(s)@ == old(s)@.push(ch),
;

/// The characters of a string slice, in order.
pub fn chars_of(s: &str) -> (v: Vec<char>)
    ensures
        v@ == s@,
{
    let mut v: Vec<char> = Vec::new();
    for c in it: s.chars()
        invariant
            it.seq() == s@,
            v@ =~= s@.take(it.index() as int),
    {
        v.push(c);
        proof {
            assert(s@.take(it.index() + 1) =~= s@.take(it.index() as int).push(c));
        }
    }
    v
}

/// A string holding exactly the given characters.
pub fn string_of(v: &[char]) -> (s: String)
    ensures
        s@ == v@,
{
    let mut s = String::new();
    let n = v.len();
    let mut i: usize = 0;
    while i < n
        invariant
            n == v@.len(),
            i <= n,
            s@ == v@.take(i as int),
        decreases n - i,
    {
        s.push(v[i]);
        proof {
            assert(v@.take(i + 1) =~= v@.take(i as int).push(v@[i as int]));
        }
        i += 1;
    }
    proof {
        assert(v@.take(n as int) =~= v@);
    }
    s
}

/// Appends `tail` to `s`.
pub fn push_chars(s: &mut String, tail: &[char])
    ensures
        final(s)@ == old(s)@ + tail@,
{
    let n = tail.len();
    let mut i: usize = 0;
    while i < n
        invariant
            n == tail@.len(),
            i <= n,
            s@ == old(s)@ + tail@.take(i as int),
        decreases n - i,
    {
        s.push(tail[i]);
        proof {
            assert(tail@.take(i + 1) =~= tail@.take(i as int).push(tail@[i as int]));
        }
        i += 1;
    }
    proof {
        assert(tail@.take(n as int) =~= tail@);
    }
}

/// Whether `needle` is a prefix of `hay` (characters).
pub fn starts_with_chars(hay: &[char], needle: &[char]) -> (b: bool)
    ensures
        b == needle@.is_prefix_of(hay@),
{
    if needle.len() > hay.len() {
        return false;
    }
    let n = needle.len();
    let mut i: usize = 0;
    while i < n
        invariant
            n == needle@.len(),
            n <= hay@.len(),
            i <= n,
            forall|k: int| 0 <= k < i ==> needle@[k] == hay@[k],
        decreases n - i,
    {
        if needle[i] != hay[i] {
            return false;
        }
        i += 1;
    }
    proof {
        assert(needle@ =~= hay@.subrange(0, needle@.len() as int));
    }
    true
}

/// Whether `needle` is a suffix of `hay` (characters).
pub fn ends_with_chars(hay: &[char], needle: &[char]) -> (b: bool)
    ensures
        b == needle@.is_suffix_of(hay@),
{
    if needle.len() > hay.len() {
        return false;
    }
    let n = needle.len();
    let off = hay.len() - n;
    let mut i: usize = 0;
    while i < n
        invariant
            n == needle@.len(),
            off + n == hay.len(),
            hay.len() == hay@.len(),
            i <= n,
            forall|k: int| 0 <= k < i ==> needle@[k] == hay@[off + k],
        decreases n - i,
    {
        if needle[i] != hay[off + i] {
            return false;
        }
        i += 1;
    }
    proof {
        assert(needle@ =~= hay@.subrange(off as int, hay@.len() as int));
    }
    true
}

/// Whether `needle` is a prefix of `hay` (bytes).
pub fn starts_with_bytes(hay: &[u8], needle: &[u8]) -> (b: bool)
    ensures
        b == needle@.is_prefix_of(hay@),
{
    if needle.len() > hay.len() {
        return false;
    }
    let n = needle.len();
    let mut i: usize = 0;
    while i < n
        invariant
            n == needle@.len(),
            n <= hay@.len(),
            i <= n,
            forall|k: int| 0 <= k < i ==> needle@[k] == hay@[k],
        decreases n - i,
    {
        if needle[i] != hay[i] {
            return false;
        }
        i += 1;
    }
    proof {
        assert(needle@ =~= hay@.subrange(0, needle@.len() as int));
    }
    true
}

/// Whether two character slices are equal.
pub fn chars_eq(a: &[char], b: &[char]) -> (r: bool)
    ensures
        r == (a@ == b@),
{
    if a.len() != b.len() {
        return false;
    }
    let r = starts_with_chars(a, b);
    proof {
        if r {
            assert(a@ =~= b@);
        }
    }
    r
}

/// Whether `c` occurs in `s`.
pub fn contains_char(s: &[char], c: char) -> (r: bool)
    ensures
        r == s@.contains(c),
{
    let n = s.len();
    let mut i: usize = 0;
    while i < n
        invariant
            n == s@.len(),
            i <= n,
            forall|k: int| 0 <= k < i ==> s@[k] != c,
        decreases n - i,
    {
        if s[i] == c {
            proof {
                assert(s@[i as int] == c);
            }
            return true;
        }
        i += 1;
    }
    false
}

} // verus!

verus! {

/// A sequence with one more element contains exactly the old elements and the new one.
pub proof fn lemma_push_contains<A>(s: Seq<A>, a: A)
    ensures
        forall|x: A| #[trigger] s.push(a).contains(x) <==> (s.contains(x) || x == a),
{
    assert forall|x: A| #[trigger] s.push(a).contains(x) <==> (s.contains(x) || x == a) by {
        if s.push(a).contains(x) {
            let k = choose|k: int| 0 <= k < s.len() + 1 && s.push(a)[k] == x;
            if k < s.len() {
                assert(s[k] == x);
            }
        }
        if s.contains(x) {
            let k = choose|k: int| 0 <= k < s.len() && s[k] == x;
            assert(s.push(a)[k] == x);
        }
        if x == a {
            assert(s.push(a)[s.len() as int] == x);
        }
    }
}

} // verus!
