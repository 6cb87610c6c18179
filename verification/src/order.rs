//! Lexicographic order on character sequences (the order of `String` in Rust: UTF-8 byte
//! order, which is code point order) and sorted collections of names kept in it.
use vstd::prelude::*;

verus! {

/// `a` sorts before `b`, comparing from position `k` onwards.
pub open spec fn lex_lt_from(a: Seq<char>, b: Seq<char>, k: int) -> bool
    decreases a.len() - k,
{
    if k < 0 || k >= a.len() {
        0 <= k < b.len()
    } else if k >= b.len() {
        false
    } else if a[k] != b[k] {
        (a[k] as u32) < (b[k] as u32)
    } else {
        lex_lt_from(a, b, k + 1)
    }
}

/// `a` sorts strictly before `b` in lexicographic order.
pub open spec fn lex_lt(a: Seq<char>, b: Seq<char>) -> bool {
    lex_lt_from(a, b, 0)
}

/// The elements of `s` are in strictly increasing lexicographic order.
pub open spec fn strictly_sorted(s: Seq<Seq<char>>) -> bool {
    forall|i: int, j: int| 0 <= i < j < s.len() ==> lex_lt(#[trigger] s[i], #[trigger] s[j])
}

/// The elements of `s` are in non-decreasing lexicographic order.
pub open spec fn sorted(s: Seq<Seq<char>>) -> bool {
    forall|i: int, j: int|
        0 <= i < j < s.len() ==> lex_lt(#[trigger] s[i], #[trigger] s[j]) || s[i] == s[j]
}

/// Distinct characters have distinct code points.
pub proof fn lemma_char_code_injective(x: char, y: char)
    ensures
        (x as u32) == (y as u32) ==> x == y,
{
    vstd::utf8::char_u32_cast(x, x as u32);
    vstd::utf8::char_u32_cast(y, y as u32);
}

proof fn lemma_lex_from_irreflexive(a: Seq<char>, k: int)
    requires
        0 <= k,
    ensures
        !lex_lt_from(a, a, k),
    decreases a.len() - k,
{
    if k < a.len() {
        lemma_lex_from_irreflexive(a, k + 1);
    }
}

proof fn lemma_lex_from_transitive(a: Seq<char>, b: Seq<char>, c: Seq<char>, k: int)
    requires
        0 <= k,
        lex_lt_from(a, b, k),
        lex_lt_from(b, c, k),
    ensures
        lex_lt_from(a, c, k),
    decreases a.len() - k,
{
    if k < a.len() && k < b.len() && k < c.len() && a[k] == b[k] && b[k] == c[k] {
        lemma_lex_from_transitive(a, b, c, k + 1);
    }
}

proof fn lemma_lex_from_total(a: Seq<char>, b: Seq<char>, k: int)
    requires
        0 <= k <= a.len(),
        k <= b.len(),
        a.take(k) =~= b.take(k),
        !lex_lt_from(a, b, k),
        !lex_lt_from(b, a, k),
    ensures
        a =~= b,
    decreases a.len() - k,
{
    if k < a.len() && k < b.len() {
        if a[k] == b[k] {
            assert(a.take(k + 1) =~= a.take(k).push(a[k]));
            assert(b.take(k + 1) =~= b.take(k).push(b[k]));
            lemma_lex_from_total(a, b, k + 1);
        } else {
            lemma_char_code_injective(a[k], b[k]);
        }
    } else {
        assert(a.len() == k && b.len() == k);
        assert(a =~= a.take(k));
        assert(b =~= b.take(k));
    }
}

/// Lexicographic order is irreflexive.
pub proof fn lemma_lex_irreflexive(a: Seq<char>)
    ensures
        !lex_lt(a, a),
{
    lemma_lex_from_irreflexive(a, 0);
}

/// Lexicographic order is transitive.
pub proof fn lemma_lex_transitive(a: Seq<char>, b: Seq<char>, c: Seq<char>)
    requires
        lex_lt(a, b),
        lex_lt(b, c),
    ensures
        lex_lt(a, c),
{
    lemma_lex_from_transitive(a, b, c, 0);
}

/// Lexicographic order is total: two sequences are equal or one sorts before the other.
pub proof fn lemma_lex_total(a: Seq<char>, b: Seq<char>)
    ensures
        a == b || lex_lt(a, b) || lex_lt(b, a),
{
    if !lex_lt(a, b) && !lex_lt(b, a) {
        lemma_lex_from_total(a, b, 0);
    }
}

/// Lexicographic order is asymmetric.
pub proof fn lemma_lex_asymmetric(a: Seq<char>, b: Seq<char>)
    ensures
        !(lex_lt(a, b) && lex_lt(b, a)),
{
    if lex_lt(a, b) && lex_lt(b, a) {
        lemma_lex_transitive(a, b, a);
        lemma_lex_irreflexive(a);
    }
}

/// The outcome of comparing two names.
#[derive(PartialEq, Eq, Structural, Clone, Copy, Debug)]
pub enum Order {
    Less,
    Equal,
    Greater,
}

/// Compares two character sequences lexicographically.
pub fn lex_compare(a: &[char], b: &[char]) -> (o: Order)
    ensures
        o == Order::Less <==> lex_lt(a@, b@),
        o == Order::Greater <==> lex_lt(b@, a@),
        o == Order::Equal <==> a@ == b@,
{
    let n = if a.len() < b.len() {
        a.len()
    } else {
        b.len()
    };
    let mut i: usize = 0;
    while i < n
        invariant
            n <= a@.len(),
            n <= b@.len(),
            n == a@.len() || n == b@.len(),
            i <= n,
            a@.take(i as int) =~= b@.take(i as int),
            lex_lt(a@, b@) == lex_lt_from(a@, b@, i as int),
            lex_lt(b@, a@) == lex_lt_from(b@, a@, i as int),
        decreases n - i,
    {
        let x = a[i];
        let y = b[i];
        if (x as u32) < (y as u32) {
            proof {
                lemma_lex_asymmetric(a@, b@);
                assert(a@ != b@);
            }
            return Order::Less;
        }
        if (y as u32) < (x as u32) {
            proof {
                lemma_lex_asymmetric(a@, b@);
                assert(a@ != b@);
            }
            return Order::Greater;
        }
        proof {
            lemma_char_code_injective(x, y);
            assert(x == y);
            assert(a@.take(i + 1) =~= a@.take(i as int).push(x));
            assert(b@.take(i + 1) =~= b@.take(i as int).push(y));
        }
        i += 1;
    }
    proof {
        lemma_lex_irreflexive(a@);
        lemma_lex_asymmetric(a@, b@);
        if a@.len() == b@.len() {
            assert(a@ =~= a@.take(n as int));
            assert(b@ =~= b@.take(n as int));
        } else {
            assert(a@.len() != b@.len());
        }
    }
    if a.len() < b.len() {
        Order::Less
    } else if b.len() < a.len() {
        Order::Greater
    } else {
        Order::Equal
    }
}

/// The views of a vector of names.
pub open spec fn names_view(v: Seq<Vec<char>>) -> Seq<Seq<char>> {
    Seq::new(v.len(), |i: int| v[i]@)
}

/// Searches a strictly sorted vector of names: `Ok(i)` when `key` is at `i`, otherwise
/// `Err(i)` with `i` the position at which `key` would keep the vector sorted.
pub fn search_sorted(v: &Vec<Vec<char>>, key: &[char]) -> (r: Result<usize, usize>)
    requires
        strictly_sorted(names_view(v@)),
    ensures
        match r {
            Ok(i) => i < v@.len() && v@[i as int]@ == key@,
            Err(i) => {
                &&& i <= v@.len()
                &&& forall|j: int| 0 <= j < i ==> lex_lt(#[trigger] v@[j]@, key@)
                &&& forall|j: int| i <= j < v@.len() ==> lex_lt(key@, #[trigger] v@[j]@)
            },
        },
{
    let ghost w = names_view(v@);
    let mut lo: usize = 0;
    let mut hi: usize = v.len();
    while lo < hi
        invariant
            w == names_view(v@),
            strictly_sorted(w),
            lo <= hi <= v@.len(),
            forall|j: int| 0 <= j < lo ==> lex_lt(#[trigger] v@[j]@, key@),
            forall|j: int| hi <= j < v@.len() ==> lex_lt(key@, #[trigger] v@[j]@),
        decreases hi - lo,
    {
        let mid = lo + (hi - lo) / 2;
        match lex_compare(v[mid].as_slice(), key) {
            Order::Equal => {
                return Ok(mid);
            },
            Order::Less => {
                proof {
                    assert forall|j: int| 0 <= j < mid + 1 implies lex_lt(
                        #[trigger] v@[j]@,
                        key@,
                    ) by {
                        if j < mid {
                            assert(w[j] == v@[j]@ && w[mid as int] == v@[mid as int]@);
                            lemma_lex_transitive(v@[j]@, v@[mid as int]@, key@);
                        }
                    }
                }
                lo = mid + 1;
            },
            Order::Greater => {
                proof {
                    assert forall|j: int| mid <= j < v@.len() implies lex_lt(
                        key@,
                        #[trigger] v@[j]@,
                    ) by {
                        if j > mid {
                            assert(w[j] == v@[j]@ && w[mid as int] == v@[mid as int]@);
                            lemma_lex_transitive(key@, v@[mid as int]@, v@[j]@);
                        }
                    }
                }
                hi = mid;
            },
        }
    }
    Err(lo)
}

/// A strictly sorted vector with `key` inserted where [`search_sorted`] said it belongs
/// stays strictly sorted.
pub proof fn lemma_insert_keeps_sorted(w: Seq<Seq<char>>, i: int, key: Seq<char>)
    requires
        strictly_sorted(w),
        0 <= i <= w.len(),
        forall|j: int| 0 <= j < i ==> lex_lt(#[trigger] w[j], key),
        forall|j: int| i <= j < w.len() ==> lex_lt(key, #[trigger] w[j]),
    ensures
        strictly_sorted(w.insert(i, key)),
{
    let u = w.insert(i, key);
    assert forall|a: int, b: int| 0 <= a < b < u.len() implies lex_lt(
        #[trigger] u[a],
        #[trigger] u[b],
    ) by {
        if a < i && b < i {
            assert(u[a] == w[a] && u[b] == w[b]);
        } else if a < i && b == i {
            assert(u[a] == w[a]);
        } else if a < i && b > i {
            assert(u[a] == w[a] && u[b] == w[b - 1]);
        } else if a == i {
            assert(u[b] == w[b - 1]);
        } else {
            assert(u[a] == w[a - 1] && u[b] == w[b - 1]);
        }
    }
}

} // verus!

verus! {

/// A set of names, kept in increasing order for lookup.
pub struct NameSet {
    sorted: Vec<Vec<char>>,
}

impl NameSet {
    #[verifier::type_invariant]
    spec fn wf(&self) -> bool {
        strictly_sorted(names_view(self.sorted@))
    }

    /// Whether `x` is in the set.
    pub closed spec fn contains(&self, x: Seq<char>) -> bool {
        names_view(self.sorted@).contains(x)
    }

    /// An empty set.
    pub fn new() -> (s: NameSet)
        ensures
            forall|x: Seq<char>| !s.contains(x),
    {
        NameSet { sorted: Vec::new() }
    }

    /// Whether `x` is in the set.
    pub fn has(&self, x: &[char]) -> (r: bool)
        ensures
            r == self.contains(x@),
    {
        proof {
            use_type_invariant(self);
        }
        match search_sorted(&self.sorted, x) {
            Ok(i) => {
                proof {
                    assert(names_view(self.sorted@)[i as int] == x@);
                }
                true
            },
            Err(i) => {
                proof {
                    let w = names_view(self.sorted@);
                    if w.contains(x@) {
                        let j = choose|j: int| 0 <= j < w.len() && w[j] == x@;
                        lemma_lex_irreflexive(x@);
                        if j < i {
                            assert(lex_lt(self.sorted@[j]@, x@));
                        } else {
                            assert(lex_lt(x@, self.sorted@[j]@));
                        }
                    }
                }
                false
            },
        }
    }

    /// Adds `x`; says whether it was not in the set before.
    pub fn insert(&mut self, x: Vec<char>) -> (added: bool)
        ensures
            added == !old(self).contains(x@),
            forall|y: Seq<char>| final(self).contains(y) <==> (old(self).contains(y) || y == x@),
    {
        proof {
            use_type_invariant(&*self);
        }
        let ghost w = names_view(self.sorted@);
        match search_sorted(&self.sorted, x.as_slice()) {
            Ok(i) => {
                proof {
                    assert(w[i as int] == x@);
                }
                false
            },
            Err(i) => {
                proof {
                    lemma_insert_keeps_sorted(w, i as int, x@);
                    if w.contains(x@) {
                        let j = choose|j: int| 0 <= j < w.len() && w[j] == x@;
                        lemma_lex_irreflexive(x@);
                        if j < i {
                            assert(lex_lt(self.sorted@[j]@, x@));
                        } else {
                            assert(lex_lt(x@, self.sorted@[j]@));
                        }
                    }
                }
                let ghost xv = x@;
                let mut v = Vec::new();
                core::mem::swap(&mut v, &mut self.sorted);
                v.insert(i, x);
                proof {
                    assert(names_view(v@) =~= w.insert(i as int, xv));
                }
                self.sorted = v;
                proof {
                    assert forall|y: Seq<char>| #![auto]
                        names_view(self.sorted@).contains(y) <==> (w.contains(y) || y == xv) by {
                        let u = w.insert(i as int, xv);
                        if u.contains(y) {
                            let k = choose|k: int| 0 <= k < u.len() && u[k] == y;
                            if k < i {
                                assert(w[k] == y);
                            } else if k > i {
                                assert(w[k - 1] == y);
                            }
                        }
                        if w.contains(y) {
                            let k = choose|k: int| 0 <= k < w.len() && w[k] == y;
                            if k < i {
                                assert(u[k] == y);
                            } else {
                                assert(u[k + 1] == y);
                            }
                        }
                        if y == xv {
                            assert(u[i as int] == y);
                        }
                    }
                }
                true
            },
        }
    }
}

/// Inserts `x` into a sorted vector after every element that does not sort after it.
pub fn insert_sorted(v: &mut Vec<Vec<char>>, x: Vec<char>)
    requires
        sorted(names_view(old(v)@)),
    ensures
        sorted(names_view(final(v)@)),
        names_view(final(v)@).to_multiset() == names_view(old(v)@).to_multiset().insert(x@),
{
    let ghost w = names_view(v@);
    let mut lo: usize = 0;
    let mut hi: usize = v.len();
    while lo < hi
        invariant
            w == names_view(v@),
            sorted(w),
            lo <= hi <= v@.len(),
            forall|j: int| 0 <= j < lo ==> !lex_lt(x@, #[trigger] v@[j]@),
            forall|j: int| hi <= j < v@.len() ==> lex_lt(x@, #[trigger] v@[j]@),
        decreases hi - lo,
    {
        let mid = lo + (hi - lo) / 2;
        match lex_compare(x.as_slice(), v[mid].as_slice()) {
            Order::Less => {
                proof {
                    assert forall|j: int| mid <= j < v@.len() implies lex_lt(
                        x@,
                        #[trigger] v@[j]@,
                    ) by {
                        if j > mid {
                            assert(w[mid as int] == v@[mid as int]@ && w[j] == v@[j]@);
                            if lex_lt(v@[mid as int]@, v@[j]@) {
                                lemma_lex_transitive(x@, v@[mid as int]@, v@[j]@);
                            }
                        }
                    }
                }
                hi = mid;
            },
            _ => {
                proof {
                    assert forall|j: int| 0 <= j < mid + 1 implies !lex_lt(
                        x@,
                        #[trigger] v@[j]@,
                    ) by {
                        assert(!lex_lt(x@, v@[mid as int]@)) by {
                            lemma_lex_asymmetric(x@, v@[mid as int]@);
                            lemma_lex_irreflexive(x@);
                        }
                        if j < mid {
                            assert(w[mid as int] == v@[mid as int]@ && w[j] == v@[j]@);
                            if lex_lt(x@, v@[j]@) {
                                if lex_lt(v@[j]@, v@[mid as int]@) {
                                    lemma_lex_transitive(x@, v@[j]@, v@[mid as int]@);
                                }
                            }
                        }
                    }
                }
                lo = mid + 1;
            },
        }
    }
    let ghost xv = x@;
    v.insert(lo, x);
    proof {
        let u = names_view(v@);
        assert(u =~= w.insert(lo as int, xv));
        assert forall|a: int, b: int| 0 <= a < b < u.len() implies lex_lt(
            #[trigger] u[a],
            #[trigger] u[b],
        ) || u[a] == u[b] by {
            if a < lo && b < lo {
                assert(u[a] == w[a] && u[b] == w[b]);
            } else if a < lo && b == lo {
                assert(u[a] == w[a]);
                assert(!lex_lt(xv, w[a]));
                lemma_lex_total(xv, w[a]);
            } else if a < lo && b > lo {
                assert(u[a] == w[a] && u[b] == w[b - 1]);
                lemma_lex_total(xv, w[a]);
                assert(lex_lt(xv, w[b - 1]));
                if lex_lt(w[a], xv) {
                    lemma_lex_transitive(w[a], xv, w[b - 1]);
                }
            } else if a == lo {
                assert(u[b] == w[b - 1]);
            } else {
                assert(u[a] == w[a - 1] && u[b] == w[b - 1]);
            }
        }
        broadcast use vstd::seq_lib::group_to_multiset_ensures;
        u.to_multiset_ensures();
        assert(u.remove(lo as int) =~= w);
        assert(u.remove(lo as int).to_multiset() =~= u.to_multiset().remove(xv));
        assert(u[lo as int] == xv);
        assert(u.to_multiset().count(xv) > 0);
        assert(u.to_multiset() =~= w.to_multiset().insert(xv));
    }
}

} // verus!
