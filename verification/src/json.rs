//! JSON values as the library reads them: the tree of one parsed JSON document.
use vstd::prelude::*;

verus! {

/// A parsed JSON value. Objects keep their members in the order of their keys, each key
/// once. Numbers keep the form they were parsed into: an unsigned integer, a negative
/// integer, or a finite float held by its IEEE-754 bits.
#[derive(Debug)]
pub enum Json {
    Null,
    Bool(bool),
    UInt(u64),
    NegInt(i64),
    Float(u64),
    Str(String),
    Array(Vec<Json>),
    Object(Vec<(String, Json)>),
}

/// One non-blank line of a JSON Lines file: the value it holds and the value's compact
/// serialisation, which is how the line is written back.
#[derive(Debug)]
pub struct JsonLine {
    pub value: Json,
    pub text: String,
}

/// The member named `key` among `fields[i..]`, if any.
pub open spec fn member_from(fields: Seq<(String, Json)>, key: Seq<char>, i: int) -> Option<Json>
    decreases fields.len() - i,
{
    if i < 0 || i >= fields.len() {
        None
    } else if fields[i].0@ == key {
        Some(fields[i].1)
    } else {
        member_from(fields, key, i + 1)
    }
}

/// The member named `key` of an object; `None` for other values or absent keys.
pub open spec fn json_member(j: Json, key: Seq<char>) -> Option<Json> {
    match j {
        Json::Object(fields) => member_from(fields@, key, 0),
        _ => None,
    }
}

/// The member named `key`, or `null` when there is none (JSON indexing by key).
pub open spec fn json_index(j: Json, key: Seq<char>) -> Json {
    match json_member(j, key) {
        Some(v) => v,
        None => Json::Null,
    }
}

/// The text of a string value.
pub open spec fn json_str(j: Json) -> Option<Seq<char>> {
    match j {
        Json::Str(s) => Some(s@),
        _ => None,
    }
}

/// The value of an unsigned integer.
pub open spec fn json_u64(j: Json) -> Option<u64> {
    match j {
        Json::UInt(n) => Some(n),
        _ => None,
    }
}

/// The value of a member that is a string.
pub open spec fn member_str(j: Json, key: Seq<char>) -> Option<Seq<char>> {
    match json_member(j, key) {
        Some(v) => json_str(v),
        None => None,
    }
}

/// Two float bit patterns denote equal numbers: the same bits, or both zeros.
pub open spec fn float_bits_eq(a: u64, b: u64) -> bool {
    a == b || ((a & 0x7fff_ffff_ffff_ffffu64) == 0 && (b & 0x7fff_ffff_ffff_ffffu64) == 0)
}

/// Equality of JSON values: numbers of the same form and value, equal strings, arrays with
/// equal items in order, objects with equal keys and values in order.
pub open spec fn json_eq(a: Json, b: Json) -> bool
    decreases a, 0int,
{
    match (a, b) {
        (Json::Null, Json::Null) => true,
        (Json::Bool(x), Json::Bool(y)) => x == y,
        (Json::UInt(x), Json::UInt(y)) => x == y,
        (Json::NegInt(x), Json::NegInt(y)) => x == y,
        (Json::Float(x), Json::Float(y)) => float_bits_eq(x, y),
        (Json::Str(x), Json::Str(y)) => x@ == y@,
        (Json::Array(x), Json::Array(y)) => x@.len() == y@.len() && items_eq_from(x@, y@, 0),
        (Json::Object(x), Json::Object(y)) => x@.len() == y@.len() && fields_eq_from(x@, y@, 0),
        _ => false,
    }
}

/// Items `i..` of two equally long arrays are pairwise equal.
pub open spec fn items_eq_from(x: Seq<Json>, y: Seq<Json>, i: int) -> bool
    decreases x, x.len() - i,
{
    if i < 0 || i >= x.len() || i >= y.len() {
        true
    } else {
        json_eq(x[i], y[i]) && items_eq_from(x, y, i + 1)
    }
}

/// Members `i..` of two equally long objects have equal keys and values.
pub open spec fn fields_eq_from(x: Seq<(String, Json)>, y: Seq<(String, Json)>, i: int) -> bool
    decreases x, x.len() - i,
{
    if i < 0 || i >= x.len() || i >= y.len() {
        true
    } else {
        x[i].0@ == y[i].0@ && json_eq(x[i].1, y[i].1) && fields_eq_from(x, y, i + 1)
    }
}

impl Json {
    /// The member named `key` of an object.
    pub fn get(&self, key: &str) -> (r: Option<&Json>)
        ensures
            match r {
                Some(v) => json_member(*self, key@) == Some(*v),
                None => json_member(*self, key@) is None,
            },
    {
        match self {
            Json::Object(fields) => {
                let k = key.to_owned();
                let n = fields.len();
                let mut i: usize = 0;
                while i < n
                    invariant
                        n == fields@.len(),
                        i <= n,
                        k@ == key@,
                        json_member(*self, key@) == member_from(fields@, key@, i as int),
                    decreases n - i,
                {
                    if fields[i].0 == k {
                        proof {
                            assert(fields@[i as int].0@ == key@);
                            assert(member_from(fields@, key@, i as int) == Some(fields@[i as int].1));
                            assert(json_member(*self, key@) == Some(fields@[i as int].1));
                        }
                        return Some(&fields[i].1);
                    }
                    i += 1;
                }
                None
            },
            _ => None,
        }
    }

    /// The text of a string value.
    pub fn as_str(&self) -> (r: Option<&String>)
        ensures
            match r {
                Some(s) => json_str(*self) == Some(s@),
                None => json_str(*self) is None,
            },
    {
        match self {
            Json::Str(s) => Some(s),
            _ => None,
        }
    }

    /// The text of the member `key`, if it is a string.
    pub fn member_str(&self, key: &str) -> (r: Option<&String>)
        ensures
            match r {
                Some(s) => member_str(*self, key@) == Some(s@),
                None => member_str(*self, key@) is None,
            },
    {
        match self.get(key) {
            Some(v) => v.as_str(),
            None => None,
        }
    }

    /// Whether the member `key` is an unsigned integer.
    pub fn member_is_u64(&self, key: &str) -> (r: bool)
        ensures
            r == (match json_member(*self, key@) {
                Some(v) => json_u64(v) is Some,
                None => false,
            }),
    {
        match self.get(key) {
            Some(Json::UInt(_)) => true,
            _ => false,
        }
    }
}

/// Whether two JSON values are equal (see [`json_eq`]).
pub fn json_equal(a: &Json, b: &Json) -> (r: bool)
    ensures
        r == json_eq(*a, *b),
    decreases *a,
{
    match (a, b) {
        (Json::Null, Json::Null) => true,
        (Json::Bool(x), Json::Bool(y)) => *x == *y,
        (Json::UInt(x), Json::UInt(y)) => *x == *y,
        (Json::NegInt(x), Json::NegInt(y)) => *x == *y,
        (Json::Float(x), Json::Float(y)) => *x == *y || ((*x & 0x7fff_ffff_ffff_ffffu64) == 0 && (
        *y & 0x7fff_ffff_ffff_ffffu64) == 0),
        (Json::Str(x), Json::Str(y)) => *x == *y,
        (Json::Array(x), Json::Array(y)) => {
            if x.len() != y.len() {
                return false;
            }
            let n = x.len();
            let mut i: usize = n;
            let mut all = true;
            while i > 0
                invariant
                    n == x@.len(),
                    n == y@.len(),
                    i <= n,
                    all == items_eq_from(x@, y@, i as int),
                    forall|k: int| 0 <= k < n ==> decreases_to!(*a => #[trigger] x@[k]),
                decreases i,
            {
                i -= 1;
                proof {
                    assert(decreases_to!(*a => x@[i as int]));
                }
                let e = json_equal(&x[i], &y[i]);
                all = e && all;
            }
            all
        },
        (Json::Object(x), Json::Object(y)) => {
            if x.len() != y.len() {
                return false;
            }
            let n = x.len();
            let mut i: usize = n;
            let mut all = true;
            while i > 0
                invariant
                    n == x@.len(),
                    n == y@.len(),
                    i <= n,
                    all == fields_eq_from(x@, y@, i as int),
                    forall|k: int| 0 <= k < n ==> decreases_to!(*a => #[trigger] x@[k].1),
                decreases i,
            {
                i -= 1;
                let e = x[i].0 == y[i].0 && json_equal(&x[i].1, &y[i].1);
                all = e && all;
            }
            all
        },
        _ => false,
    }
}

} // verus!

verus! {

/// Every JSON value equals itself.
pub proof fn lemma_json_eq_reflexive(a: Json)
    ensures
        json_eq(a, a),
    decreases a, 0int,
{
    match a {
        Json::Array(x) => {
            lemma_items_eq_reflexive(x@, 0);
        },
        Json::Object(x) => {
            lemma_fields_eq_reflexive(x@, 0);
        },
        _ => {},
    }
}

proof fn lemma_items_eq_reflexive(x: Seq<Json>, i: int)
    ensures
        items_eq_from(x, x, i),
    decreases x, x.len() - i,
{
    if 0 <= i < x.len() {
        lemma_json_eq_reflexive(x[i]);
        lemma_items_eq_reflexive(x, i + 1);
    }
}

proof fn lemma_fields_eq_reflexive(x: Seq<(String, Json)>, i: int)
    ensures
        fields_eq_from(x, x, i),
    decreases x, x.len() - i,
{
    if 0 <= i < x.len() {
        lemma_json_eq_reflexive(x[i].1);
        lemma_fields_eq_reflexive(x, i + 1);
    }
}

/// Equality of JSON values is symmetric.
pub proof fn lemma_json_eq_symmetric(a: Json, b: Json)
    requires
        json_eq(a, b),
    ensures
        json_eq(b, a),
    decreases a, 0int,
{
    match (a, b) {
        (Json::Array(x), Json::Array(y)) => {
            lemma_items_eq_symmetric(x@, y@, 0);
        },
        (Json::Object(x), Json::Object(y)) => {
            lemma_fields_eq_symmetric(x@, y@, 0);
        },
        _ => {},
    }
}

proof fn lemma_items_eq_symmetric(x: Seq<Json>, y: Seq<Json>, i: int)
    requires
        x.len() == y.len(),
        items_eq_from(x, y, i),
    ensures
        items_eq_from(y, x, i),
    decreases x, x.len() - i,
{
    if 0 <= i < x.len() {
        lemma_json_eq_symmetric(x[i], y[i]);
        lemma_items_eq_symmetric(x, y, i + 1);
    }
}

proof fn lemma_fields_eq_symmetric(x: Seq<(String, Json)>, y: Seq<(String, Json)>, i: int)
    requires
        x.len() == y.len(),
        fields_eq_from(x, y, i),
    ensures
        fields_eq_from(y, x, i),
    decreases x, x.len() - i,
{
    if 0 <= i < x.len() {
        lemma_json_eq_symmetric(x[i].1, y[i].1);
        lemma_fields_eq_symmetric(x, y, i + 1);
    }
}

/// Equality of JSON values is transitive.
pub proof fn lemma_json_eq_transitive(a: Json, b: Json, c: Json)
    requires
        json_eq(a, b),
        json_eq(b, c),
    ensures
        json_eq(a, c),
    decreases a, 0int,
{
    match (a, b, c) {
        (Json::Array(x), Json::Array(y), Json::Array(z)) => {
            lemma_items_eq_transitive(x@, y@, z@, 0);
        },
        (Json::Object(x), Json::Object(y), Json::Object(z)) => {
            lemma_fields_eq_transitive(x@, y@, z@, 0);
        },
        _ => {},
    }
}

proof fn lemma_items_eq_transitive(x: Seq<Json>, y: Seq<Json>, z: Seq<Json>, i: int)
    requires
        x.len() == y.len(),
        y.len() == z.len(),
        items_eq_from(x, y, i),
        items_eq_from(y, z, i),
    ensures
        items_eq_from(x, z, i),
    decreases x, x.len() - i,
{
    if 0 <= i < x.len() {
        lemma_json_eq_transitive(x[i], y[i], z[i]);
        lemma_items_eq_transitive(x, y, z, i + 1);
    }
}

proof fn lemma_fields_eq_transitive(
    x: Seq<(String, Json)>,
    y: Seq<(String, Json)>,
    z: Seq<(String, Json)>,
    i: int,
)
    requires
        x.len() == y.len(),
        y.len() == z.len(),
        fields_eq_from(x, y, i),
        fields_eq_from(y, z, i),
    ensures
        fields_eq_from(x, z, i),
    decreases x, x.len() - i,
{
    if 0 <= i < x.len() {
        lemma_json_eq_transitive(x[i].1, y[i].1, z[i].1);
        lemma_fields_eq_transitive(x, y, z, i + 1);
    }
}

} // verus!

verus! {

impl Json {
    /// The member named `key` of an object, taken out of it.
    pub fn into_member(self, key: &str) -> (r: Option<Json>)
        ensures
            r == json_member(self, key@),
    {
        match self {
            Json::Object(mut fields) => {
                let k = key.to_owned();
                let n = fields.len();
                let mut i: usize = 0;
                while i < n
                    invariant
                        n == fields@.len(),
                        i <= n,
                        k@ == key@,
                        json_member(self, key@) == member_from(fields@, key@, i as int),
                    decreases n - i,
                {
                    if fields[i].0 == k {
                        proof {
                            assert(member_from(fields@, key@, i as int) == Some(fields@[i as int].1));
                        }
                        let ghost before = fields@;
                        let pair = fields.remove(i);
                        proof {
                            assert(pair == before[i as int]);
                            assert(json_member(self, key@) == Some(pair.1));
                        }
                        return Some(pair.1);
                    }
                    i += 1;
                }
                None
            },
            _ => None,
        }
    }
}

} // verus!
