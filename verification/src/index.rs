//! Merging the conversation-name index: for each conversation the record with the latest
//! `updated_at` wins, and two different records with the same `updated_at` conflict.
use vstd::prelude::*;
use crate::json::{Json, JsonLine, json_eq, json_equal, json_member, member_str};
use crate::jsonl::encode_lines;
use crate::merge::MergeError;
use crate::order::{lex_lt, names_view, search_sorted, strictly_sorted, lemma_insert_keeps_sorted};
use crate::text::{chars_of, push_chars};

verus! {

/// What `chrono::DateTime::parse_from_rfc3339` gives back for a text, as the instant it
/// denotes: whole seconds since the Unix epoch and the nanoseconds within that second (a
/// leap second's nanoseconds run past one billion). `None` when it fails.
pub uninterp spec fn rfc3339_instant(text: Seq<char>) -> Option<(i64, u32)>;

/// Calls `chrono::DateTime::parse_from_rfc3339` and returns the parsed instant as
/// `(timestamp, timestamp_subsec_nanos)`. The contract only names the result: it is a
/// function of the text.
#[verifier::external_body]
fn parse_rfc3339(text: &str) -> (r: Option<(i64, u32)>)
    ensures
        r == rfc3339_instant(text@),
{
    match chrono::DateTime::parse_from_rfc3339(text) {
        Ok(t) => Some((t.timestamp(), t.timestamp_subsec_nanos())),
        Err(_) => None,
    }
}

/// Instants in time order: by seconds, then by nanoseconds (the order of the parsed
/// date-times in UTC).
pub open spec fn instant_lt(a: (i64, u32), b: (i64, u32)) -> bool {
    a.0 < b.0 || (a.0 == b.0 && a.1 < b.1)
}

/// The instant that a record's `updated_at` text denotes, when it has one that parses.
pub open spec fn record_instant(v: Json) -> Option<(i64, u32)> {
    match member_str(v, "updated_at"@) {
        Some(t) => rfc3339_instant(t),
        None => None,
    }
}

/// The conversation id and update instant of a name-index record, or why it has none,
/// given the instant its `updated_at` text was parsed into (`None` when parsing failed).
pub open spec fn index_key_with(v: Json, instant: Option<(i64, u32)>) -> Result<
    (Seq<char>, (i64, u32)),
    MergeError,
> {
    match member_str(v, "id"@) {
        None => Err(MergeError::MissingIndexId),
        Some(id) => if member_str(v, "thread_name"@) is None {
            Err(MergeError::MissingThreadName)
        } else if member_str(v, "updated_at"@) is None {
            Err(MergeError::MissingUpdatedAt)
        } else {
            match instant {
                None => Err(MergeError::InvalidTimestamp),
                Some(at) => Ok((id, at)),
            }
        },
    }
}

/// The conversation id and update instant of a name-index record, or why it has none.
pub open spec fn index_key(v: Json) -> Result<(Seq<char>, (i64, u32)), MergeError> {
    index_key_with(v, record_instant(v))
}

/// The id string of a record whose `id` member is a string.
pub open spec fn id_string(v: Json) -> String {
    match json_member(v, "id"@) {
        Some(Json::Str(s)) => s,
        _ => arbitrary(),
    }
}

/// The index after the first `n` records, in order, given the parsed instant of each
/// record: conversation id to the instant and position of the record that stands for it.
pub open spec fn index_fold_with(
    records: Seq<JsonLine>,
    instants: Seq<Option<(i64, u32)>>,
    n: int,
) -> Result<Map<Seq<char>, ((i64, u32), int)>, MergeError>
    decreases n,
{
    if n <= 0 {
        Ok(Map::empty())
    } else {
        match index_fold_with(records, instants, n - 1) {
            Err(e) => Err(e),
            Ok(m) => {
                let r = records[n - 1];
                match index_key_with(r.value, instants[n - 1]) {
                    Err(e) => Err(e),
                    Ok((id, at)) => if m.contains_key(id) {
                        let prev = m[id];
                        if at == prev.0 && !json_eq(r.value, records[prev.1].value) {
                            Err(MergeError::ConflictingNames(id_string(r.value)))
                        } else if instant_lt(at, prev.0) {
                            Ok(m)
                        } else {
                            Ok(m.insert(id, (at, n - 1)))
                        }
                    } else {
                        Ok(m.insert(id, (at, n - 1)))
                    },
                }
            },
        }
    }
}

/// The parsed instant of each record.
pub open spec fn record_instants(records: Seq<JsonLine>) -> Seq<Option<(i64, u32)>> {
    records.map_values(|r: JsonLine| record_instant(r.value))
}

/// The index after the first `n` records, in order.
pub open spec fn index_fold(records: Seq<JsonLine>, n: int) -> Result<
    Map<Seq<char>, ((i64, u32), int)>,
    MergeError,
> {
    index_fold_with(records, record_instants(records), n)
}

/// The index of all local records followed by all incoming records.
pub open spec fn merged_index(local: Seq<JsonLine>, incoming: Seq<JsonLine>) -> Result<
    Map<Seq<char>, ((i64, u32), int)>,
    MergeError,
> {
    index_fold(local + incoming, (local.len() + incoming.len()) as int)
}

/// The index of all local records followed by all incoming records, given the parsed
/// instant of each of them.
pub open spec fn merged_index_with(
    local: Seq<JsonLine>,
    incoming: Seq<JsonLine>,
    instants: Seq<Option<(i64, u32)>>,
) -> Result<Map<Seq<char>, ((i64, u32), int)>, MergeError> {
    index_fold_with(local + incoming, instants, (local.len() + incoming.len()) as int)
}

/// Once the fold has failed, it stays failed with the same error.
proof fn lemma_fold_error_stays(
    records: Seq<JsonLine>,
    instants: Seq<Option<(i64, u32)>>,
    n: int,
    n2: int,
)
    requires
        0 <= n <= n2,
        index_fold_with(records, instants, n) is Err,
    ensures
        index_fold_with(records, instants, n2) == index_fold_with(records, instants, n),
    decreases n2 - n,
{
    if n2 > n {
        lemma_fold_error_stays(records, instants, n, n2 - 1);
    }
}

/// The merged index as lines: the standing record of each conversation, in id order.
pub open spec fn index_lines(
    records: Seq<JsonLine>,
    m: Map<Seq<char>, ((i64, u32), int)>,
    ids: Seq<Seq<char>>,
) -> Seq<Seq<char>> {
    ids.map_values(|id: Seq<char>| records[m[id].1].text@)
}

/// `ids` lists the conversations of `m` in increasing order.
pub open spec fn ids_in_order(m: Map<Seq<char>, ((i64, u32), int)>, ids: Seq<Seq<char>>) -> bool {
    strictly_sorted(ids) && (forall|id: Seq<char>| m.contains_key(id) <==> ids.contains(id))
}

/// The error that the fold reports, matched against one returned.
pub open spec fn same_error(e: MergeError, f: MergeError) -> bool {
    match (e, f) {
        (MergeError::MissingIndexId, MergeError::MissingIndexId) => true,
        (MergeError::MissingThreadName, MergeError::MissingThreadName) => true,
        (MergeError::MissingUpdatedAt, MergeError::MissingUpdatedAt) => true,
        (MergeError::InvalidTimestamp, MergeError::InvalidTimestamp) => true,
        (MergeError::ConflictingNames(a), MergeError::ConflictingNames(b)) => a@ == b@,
        _ => false,
    }
}

/// The record at position `k` of `local` followed by `incoming`.
fn record_at<'a>(local: &'a Vec<JsonLine>, incoming: &'a Vec<JsonLine>, k: usize) -> (r:
    &'a JsonLine)
    requires
        k < local@.len() + incoming@.len(),
    ensures
        *r == (local@ + incoming@)[k as int],
{
    if k < local.len() {
        &local[k]
    } else {
        &incoming[k - local.len()]
    }
}

/// The index being built: ids in increasing order, with the instant and position of the
/// standing record of each.
struct IndexState {
    ids: Vec<Vec<char>>,
    ats: Vec<(i64, u32)>,
    pos: Vec<usize>,
}

impl IndexState {
    /// The state holds the map `m`.
    spec fn holds(&self, m: Map<Seq<char>, ((i64, u32), int)>) -> bool {
        &&& strictly_sorted(names_view(self.ids@))
        &&& self.ats@.len() == self.ids@.len()
        &&& self.pos@.len() == self.ids@.len()
        &&& forall|id: Seq<char>| m.contains_key(id) <==> names_view(self.ids@).contains(id)
        &&& forall|j: int|
            0 <= j < self.ids@.len() ==> m[#[trigger] self.ids@[j]@] == (
                self.ats@[j],
                self.pos@[j] as int,
            )
    }
}

fn index_key_with_exec(v: &Json, instant: Option<(i64, u32)>) -> (r: Result<
    (Vec<char>, (i64, u32)),
    MergeError,
>)
    ensures
        match (r, index_key_with(*v, instant)) {
            (Ok((id, at)), Ok((sid, sat))) => id@ == sid && at == sat,
            (Err(e), Err(f)) => same_error(e, f),
            _ => false,
        },
{
    proof {
        reveal_strlit("id");
        reveal_strlit("thread_name");
        reveal_strlit("updated_at");
    }
    let id = match v.member_str("id") {
        Some(s) => chars_of(s.as_str()),
        None => {
            return Err(MergeError::MissingIndexId);
        },
    };
    if v.member_str("thread_name").is_none() {
        return Err(MergeError::MissingThreadName);
    }
    if v.member_str("updated_at").is_none() {
        return Err(MergeError::MissingUpdatedAt);
    }
    match instant {
        Some(at) => Ok((id, at)),
        None => Err(MergeError::InvalidTimestamp),
    }
}

/// The parsed instant of a record's `updated_at`, when it has one that parses.
fn record_instant_exec(v: &Json) -> (r: Option<(i64, u32)>)
    ensures
        r == record_instant(*v),
{
    proof {
        reveal_strlit("updated_at");
    }
    match v.member_str("updated_at") {
        Some(t) => parse_rfc3339(t.as_str()),
        None => None,
    }
}

fn id_string_exec(v: &Json) -> (s: String)
    requires
        member_str(*v, "id"@) is Some,
    ensures
        s == id_string(*v),
{
    proof {
        reveal_strlit("id");
    }
    match v.get("id") {
        Some(Json::Str(s)) => s.clone(),
        _ => {
            proof {
                assert(false);
            }
            String::new()
        },
    }
}

/// Merges two versions of the name index, given the parsed `updated_at` instant of each
/// record (local records first, then incoming): the result is written as JSON Lines, one
/// record per conversation in id order (see [`index_fold_with`]).
pub fn merge_index_parsed(
    local: &Vec<JsonLine>,
    incoming: &Vec<JsonLine>,
    instants: &Vec<Option<(i64, u32)>>,
) -> (r: Result<String, MergeError>)
    requires
        instants@.len() == local@.len() + incoming@.len(),
    ensures
        r is Ok <==> merged_index_with(local@, incoming@, instants@) is Ok,
        r matches Ok(out) ==> exists|ids: Seq<Seq<char>>|
            #[trigger] ids_in_order(merged_index_with(local@, incoming@, instants@)->Ok_0, ids)
                && out@ == encode_lines(
                index_lines(
                    local@ + incoming@,
                    merged_index_with(local@, incoming@, instants@)->Ok_0,
                    ids,
                ),
            ),
        r matches Err(e) ==> same_error(e, merged_index_with(local@, incoming@, instants@)->Err_0),
{
    let ghost records = local@ + incoming@;
    let total = instants.len();
    let mut st = IndexState { ids: Vec::new(), ats: Vec::new(), pos: Vec::new() };
    let ghost mut m: Map<Seq<char>, ((i64, u32), int)> = Map::empty();
    let mut k: usize = 0;
    while k < total
        invariant
            records == local@ + incoming@,
            instants@.len() == records.len(),
            total == records.len(),
            k <= total,
            index_fold_with(records, instants@, k as int) == Ok::<_, MergeError>(m),
            st.holds(m),
            forall|id: Seq<char>| #[trigger] m.contains_key(id) ==> 0 <= m[id].1 < k,
        decreases total - k,
    {
        let rec = record_at(local, incoming, k);
        let (id, at) = match index_key_with_exec(&rec.value, instants[k]) {
            Ok(x) => x,
            Err(e) => {
                proof {
                    assert(index_fold_with(records, instants@, k + 1) == Err::<Map<Seq<char>, ((i64, u32), int)>, _>(
                        index_key_with(rec.value, instants@[k as int])->Err_0,
                    ));
                    lemma_fold_error_stays(records, instants@, k + 1, total as int);
                }
                return Err(e);
            },
        };
        let ghost w = names_view(st.ids@);
        match search_sorted(&st.ids, id.as_slice()) {
            Ok(j) => {
                let prev = st.ats[j];
                let p = st.pos[j];
                proof {
                    assert(w[j as int] == id@);
                    assert(w.contains(id@));
                    assert(m.contains_key(id@));
                    assert(m[id@] == (prev, p as int));
                }
                let same_time = at.0 == prev.0 && at.1 == prev.1;
                if same_time && !json_equal(&rec.value, &record_at(local, incoming, p).value) {
                    let name = id_string_exec(&rec.value);
                    proof {
                        assert(index_fold_with(records, instants@, k + 1) == Err::<
                            Map<Seq<char>, ((i64, u32), int)>,
                            _,
                        >(MergeError::ConflictingNames(id_string(rec.value))));
                        lemma_fold_error_stays(records, instants@, k + 1, total as int);
                    }
                    return Err(MergeError::ConflictingNames(name));
                }
                if at.0 < prev.0 || (at.0 == prev.0 && at.1 < prev.1) {
                    // An older name: the standing record stays.
                } else {
                    st.ats.set(j, at);
                    st.pos.set(j, k);
                    proof {
                        let m2 = m.insert(id@, (at, k as int));
                        assert forall|jj: int| 0 <= jj < st.ids@.len() implies m2[
                            #[trigger] st.ids@[jj]@] == (st.ats@[jj], st.pos@[jj] as int) by {
                            if jj != j {
                                crate::order::lemma_lex_irreflexive(w[j as int]);
                                if jj < j {
                                    assert(lex_lt(w[jj], w[j as int]));
                                } else {
                                    assert(lex_lt(w[j as int], w[jj]));
                                }
                                assert(w[jj] != w[j as int]);
                            }
                        }
                        assert forall|x: Seq<char>| m2.contains_key(x) <==> names_view(
                            st.ids@,
                        ).contains(x) by {
                            if x == id@ {
                                assert(names_view(st.ids@)[j as int] == x);
                            }
                        }
                        m = m2;
                    }
                }
            },
            Err(j) => {
                proof {
                    lemma_insert_keeps_sorted(w, j as int, id@);
                    if m.contains_key(id@) {
                        assert(w.contains(id@));
                        let q = choose|q: int| 0 <= q < w.len() && w[q] == id@;
                        crate::order::lemma_lex_irreflexive(id@);
                        if q < j {
                            assert(lex_lt(st.ids@[q]@, id@));
                        } else {
                            assert(lex_lt(id@, st.ids@[q]@));
                        }
                    }
                }
                let ghost idv = id@;
                st.ids.insert(j, id);
                st.ats.insert(j, at);
                st.pos.insert(j, k);
                proof {
                    let m2 = m.insert(idv, (at, k as int));
                    let u = w.insert(j as int, idv);
                    assert(names_view(st.ids@) =~= u);
                    assert forall|x: Seq<char>| m2.contains_key(x) <==> u.contains(x) by {
                        if u.contains(x) {
                            let q = choose|q: int| 0 <= q < u.len() && u[q] == x;
                            if q < j {
                                assert(w[q] == x);
                            } else if q > j {
                                assert(w[q - 1] == x);
                            }
                        }
                        if m.contains_key(x) {
                            assert(w.contains(x));
                            let q = choose|q: int| 0 <= q < w.len() && w[q] == x;
                            if q < j {
                                assert(u[q] == x);
                            } else {
                                assert(u[q + 1] == x);
                            }
                        }
                        if x == idv {
                            assert(u[j as int] == x);
                        }
                    }
                    assert forall|jj: int| 0 <= jj < st.ids@.len() implies m2[
                        #[trigger] st.ids@[jj]@] == (st.ats@[jj], st.pos@[jj] as int) by {
                        if jj < j {
                            assert(st.ids@[jj]@ == w[jj]);
                            assert(w[jj] != idv) by {
                                crate::order::lemma_lex_irreflexive(idv);
                            }
                        } else if jj > j {
                            assert(st.ids@[jj]@ == w[jj - 1]);
                            assert(w[jj - 1] != idv) by {
                                crate::order::lemma_lex_irreflexive(idv);
                            }
                        }
                    }
                    m = m2;
                }
            },
        }
        k += 1;
    }
    let mut out = String::new();
    let n = st.ids.len();
    let ghost ids = names_view(st.ids@);
    let mut j: usize = 0;
    while j < n
        invariant
            records == local@ + incoming@,
            instants@.len() == records.len(),
            total == records.len(),
            n == st.ids@.len(),
            ids == names_view(st.ids@),
            st.holds(m),
            index_fold_with(records, instants@, total as int) == Ok::<_, MergeError>(m),
            j <= n,
            forall|id: Seq<char>| #[trigger] m.contains_key(id) ==> 0 <= m[id].1 < total,
            out@ == encode_lines(index_lines(records, m, ids.take(j as int))),
        decreases n - j,
    {
        let p = st.pos[j];
        proof {
            assert(m.contains_key(st.ids@[j as int]@)) by {
                assert(names_view(st.ids@)[j as int] == st.ids@[j as int]@);
            }
        }
        let rec = record_at(local, incoming, p);
        let t = chars_of(rec.text.as_str());
        push_chars(&mut out, &t);
        out.push('\n');
        proof {
            let before = index_lines(records, m, ids.take(j as int));
            assert(index_lines(records, m, ids.take(j + 1)) =~= before.push(t@));
            assert(before.push(t@).drop_last() =~= before);
        }
        j += 1;
    }
    proof {
        assert(ids.take(n as int) =~= ids);
        assert(ids_in_order(m, ids));
        assert(out@ == encode_lines(index_lines(records, m, ids)));
        assert(records.len() == local@.len() + incoming@.len());
        assert(merged_index_with(local@, incoming@, instants@) == Ok::<_, MergeError>(m));
        assert(ids_in_order(merged_index_with(local@, incoming@, instants@)->Ok_0, ids));
    }
    Ok(out)
}

/// Merges two versions of the name index: records are taken local first, then incoming;
/// the result is written as JSON Lines, one record per conversation in id order (see
/// [`index_fold`]).
pub fn merge_session_index(local: &Vec<JsonLine>, incoming: &Vec<JsonLine>) -> (r: Result<
    String,
    MergeError,
>)
    requires
        local@.len() + incoming@.len() <= usize::MAX,
    ensures
        r is Ok <==> merged_index(local@, incoming@) is Ok,
        r matches Ok(out) ==> exists|ids: Seq<Seq<char>>|
            #[trigger] ids_in_order(merged_index(local@, incoming@)->Ok_0, ids) && out@
                == encode_lines(
                index_lines(local@ + incoming@, merged_index(local@, incoming@)->Ok_0, ids),
            ),
        r matches Err(e) ==> same_error(e, merged_index(local@, incoming@)->Err_0),
{
    let ghost records = local@ + incoming@;
    let total = local.len() + incoming.len();
    let mut instants: Vec<Option<(i64, u32)>> = Vec::new();
    let mut k: usize = 0;
    while k < total
        invariant
            records == local@ + incoming@,
            total == records.len(),
            k <= total,
            instants@ == record_instants(records).take(k as int),
        decreases total - k,
    {
        let rec = record_at(local, incoming, k);
        instants.push(record_instant_exec(&rec.value));
        proof {
            assert(record_instants(records).take(k + 1) =~= record_instants(records).take(
                k as int,
            ).push(record_instant(records[k as int].value)));
        }
        k += 1;
    }
    proof {
        assert(record_instants(records).take(total as int) =~= record_instants(records));
    }
    merge_index_parsed(local, incoming, &instants)
}

} // verus!

verus! {

/// The record at position `i` belongs to conversation `id` and was updated at `at`.
pub open spec fn keyed(records: Seq<JsonLine>, i: int, id: Seq<char>, at: (i64, u32)) -> bool {
    index_key(records[i].value) == Ok::<_, MergeError>((id, at))
}

/// What a successful fold of the first `n` records holds: every record is well formed,
/// each conversation stands for a record of it with the latest instant, and every record
/// of a conversation at that latest instant equals the standing one.
pub proof fn lemma_index_fold_facts(records: Seq<JsonLine>, n: int)
    requires
        0 <= n <= records.len(),
        index_fold(records, n) is Ok,
    ensures
        ({
            let m = index_fold(records, n)->Ok_0;
            &&& forall|i: int| 0 <= i < n ==> (#[trigger] index_key(records[i].value)) is Ok
            &&& forall|id: Seq<char>| #[trigger]
                m.contains_key(id) ==> 0 <= m[id].1 < n && keyed(records, m[id].1, id, m[id].0)
            &&& forall|i: int, id: Seq<char>, at: (i64, u32)|
                0 <= i < n && #[trigger] keyed(records, i, id, at) ==> {
                    &&& m.contains_key(id)
                    &&& !instant_lt(m[id].0, at)
                    &&& at == m[id].0 ==> json_eq(records[i].value, records[m[id].1].value)
                }
        }),
    decreases n,
{
    if n > 0 {
        let prev = index_fold(records, n - 1);
        if prev is Err {
            assert(index_fold(records, n) is Err);
        } else {
            lemma_index_fold_facts(records, n - 1);
            let m0 = prev->Ok_0;
            let r = records[n - 1];
            let (id, at) = index_key(r.value)->Ok_0;
            assert(keyed(records, n - 1, id, at));
            let m = index_fold(records, n)->Ok_0;
            crate::json::lemma_json_eq_reflexive(r.value);
            if m0.contains_key(id) {
                let p = m0[id];
                if instant_lt(at, p.0) {
                    assert(m == m0);
                    assert forall|i: int, id2: Seq<char>, at2: (i64, u32)|
                        0 <= i < n && #[trigger] keyed(records, i, id2, at2) implies {
                        &&& m.contains_key(id2)
                        &&& !instant_lt(m[id2].0, at2)
                        &&& at2 == m[id2].0 ==> json_eq(records[i].value, records[m[id2].1].value)
                    } by {
                        if i == n - 1 {
                            assert(id2 == id && at2 == at);
                        }
                    }
                } else {
                    assert(m == m0.insert(id, (at, n - 1)));
                    assert forall|i: int, id2: Seq<char>, at2: (i64, u32)|
                        0 <= i < n && #[trigger] keyed(records, i, id2, at2) implies {
                        &&& m.contains_key(id2)
                        &&& !instant_lt(m[id2].0, at2)
                        &&& at2 == m[id2].0 ==> json_eq(records[i].value, records[m[id2].1].value)
                    } by {
                        if i == n - 1 {
                            assert(id2 == id && at2 == at);
                        } else if id2 == id {
                            assert(m0.contains_key(id));
                            if at2 == at {
                                assert(at == p.0);
                                assert(json_eq(records[i].value, records[p.1].value));
                                assert(json_eq(r.value, records[p.1].value));
                                crate::json::lemma_json_eq_symmetric(
                                    r.value,
                                    records[p.1].value,
                                );
                                crate::json::lemma_json_eq_transitive(
                                    records[i].value,
                                    records[p.1].value,
                                    r.value,
                                );
                            }
                        }
                    }
                    assert forall|id2: Seq<char>| #[trigger]
                        m.contains_key(id2) implies 0 <= m[id2].1 < n && keyed(
                        records,
                        m[id2].1,
                        id2,
                        m[id2].0,
                    ) by {
                        if id2 != id {
                            assert(m0.contains_key(id2));
                        }
                    }
                }
            } else {
                assert(m == m0.insert(id, (at, n - 1)));
                assert forall|i: int, id2: Seq<char>, at2: (i64, u32)|
                    0 <= i < n && #[trigger] keyed(records, i, id2, at2) implies {
                    &&& m.contains_key(id2)
                    &&& !instant_lt(m[id2].0, at2)
                    &&& at2 == m[id2].0 ==> json_eq(records[i].value, records[m[id2].1].value)
                } by {
                    if i == n - 1 {
                        assert(id2 == id && at2 == at);
                    } else if id2 == id {
                        assert(m0.contains_key(id));
                    }
                }
                assert forall|id2: Seq<char>| #[trigger]
                    m.contains_key(id2) implies 0 <= m[id2].1 < n && keyed(
                    records,
                    m[id2].1,
                    id2,
                    m[id2].0,
                ) by {
                    if id2 != id {
                        assert(m0.contains_key(id2));
                    }
                }
            }
            assert forall|i: int| 0 <= i < n implies (#[trigger] index_key(
                records[i].value,
            )) is Ok by {
                if i < n - 1 {
                }
            }
        }
    }
}

} // verus!

verus! {

/// The newest name wins: after a successful merge, every record of a conversation is at
/// most as new as the record that stands for it, and that record is one of its own.
pub proof fn law_index_latest_wins(
    local: Seq<JsonLine>,
    incoming: Seq<JsonLine>,
    i: int,
    id: Seq<char>,
    at: (i64, u32),
)
    requires
        merged_index(local, incoming) is Ok,
        0 <= i < local.len() + incoming.len(),
        keyed(local + incoming, i, id, at),
    ensures
        ({
            let m = merged_index(local, incoming)->Ok_0;
            &&& m.contains_key(id)
            &&& !instant_lt(m[id].0, at)
            &&& keyed(local + incoming, m[id].1, id, m[id].0)
        }),
{
    lemma_index_fold_facts(local + incoming, (local.len() + incoming.len()) as int);
}

/// Ambiguous names stop the merge: two different records of one conversation with the
/// same `updated_at`, when no record of it is newer, make the merge fail.
pub proof fn law_index_same_time_conflict(
    local: Seq<JsonLine>,
    incoming: Seq<JsonLine>,
    i: int,
    j: int,
    id: Seq<char>,
    at: (i64, u32),
)
    requires
        0 <= i < local.len() + incoming.len(),
        0 <= j < local.len() + incoming.len(),
        keyed(local + incoming, i, id, at),
        keyed(local + incoming, j, id, at),
        !json_eq((local + incoming)[i].value, (local + incoming)[j].value),
        forall|k: int, at2: (i64, u32)|
            0 <= k < local.len() + incoming.len() && #[trigger] keyed(local + incoming, k, id, at2)
                ==> !instant_lt(at, at2),
    ensures
        merged_index(local, incoming) is Err,
{
    let rs = local + incoming;
    if merged_index(local, incoming) is Ok {
        lemma_index_fold_facts(rs, rs.len() as int);
        let m = merged_index(local, incoming)->Ok_0;
        let s = m[id];
        assert(keyed(rs, s.1, id, s.0));
        assert(!instant_lt(at, s.0));
        assert(!instant_lt(s.0, at));
        assert(s.0 == at);
        crate::json::lemma_json_eq_symmetric(rs[j].value, rs[s.1].value);
        crate::json::lemma_json_eq_transitive(rs[i].value, rs[s.1].value, rs[j].value);
    }
}

/// Which side is local does not matter: when the index merges both ways, the same
/// conversations stand, at the same instants, with equal names and contents.
pub proof fn law_index_order_independent(a: Seq<JsonLine>, b: Seq<JsonLine>)
    requires
        merged_index(a, b) is Ok,
        merged_index(b, a) is Ok,
    ensures
        ({
            let m1 = merged_index(a, b)->Ok_0;
            let m2 = merged_index(b, a)->Ok_0;
            &&& m1.dom() == m2.dom()
            &&& forall|id: Seq<char>| #[trigger]
                m1.contains_key(id) ==> m1[id].0 == m2[id].0 && json_eq(
                    (a + b)[m1[id].1].value,
                    (b + a)[m2[id].1].value,
                )
        }),
{
    let rs1 = a + b;
    let rs2 = b + a;
    let n = (a.len() + b.len()) as int;
    lemma_index_fold_facts(rs1, n);
    lemma_index_fold_facts(rs2, n);
    let m1 = merged_index(a, b)->Ok_0;
    let m2 = merged_index(b, a)->Ok_0;
    // Position `k` of `a + b` is position `swap(k)` of `b + a`.
    let swap = |k: int| if k < a.len() {
        k + b.len()
    } else {
        k - a.len()
    };
    let back = |k: int| if k < b.len() {
        k + a.len()
    } else {
        k - b.len()
    };
    assert forall|k: int| 0 <= k < n implies rs2[swap(k)] == rs1[k] by {}
    assert forall|k: int| 0 <= k < n implies rs1[back(k)] == rs2[k] by {}
    assert forall|id: Seq<char>| #[trigger] m1.contains_key(id) implies m2.contains_key(id) && m1[id].0
        == m2[id].0 && json_eq(rs1[m1[id].1].value, rs2[m2[id].1].value) by {
        let s1 = m1[id];
        assert(keyed(rs1, s1.1, id, s1.0));
        assert(keyed(rs2, swap(s1.1), id, s1.0));
        let s2 = m2[id];
        assert(keyed(rs2, s2.1, id, s2.0));
        assert(keyed(rs1, back(s2.1), id, s2.0));
        assert(s1.0 == s2.0);
        assert(json_eq(rs1[back(s2.1)].value, rs1[s1.1].value));
        crate::json::lemma_json_eq_symmetric(rs1[back(s2.1)].value, rs1[s1.1].value);
    }
    assert forall|id: Seq<char>| #[trigger] m2.contains_key(id) implies m1.contains_key(id) by {
        let s2 = m2[id];
        assert(keyed(rs2, s2.1, id, s2.0));
        assert(keyed(rs1, back(s2.1), id, s2.0));
    }
    assert(m1.dom() =~= m2.dom());
}

} // verus!

verus! {

/// The records that stand for the conversations `ids`, in that order: what the merged
/// index file holds.
pub open spec fn standing_records(
    records: Seq<JsonLine>,
    m: Map<Seq<char>, ((i64, u32), int)>,
    ids: Seq<Seq<char>>,
) -> Seq<JsonLine> {
    ids.map_values(|id: Seq<char>| records[m[id].1])
}

proof fn lemma_remerge_standing(
    records: Seq<JsonLine>,
    m: Map<Seq<char>, ((i64, u32), int)>,
    ids: Seq<Seq<char>>,
    incoming: Seq<JsonLine>,
    n: int,
)
    requires
        index_fold(records, records.len() as int) == Ok::<_, MergeError>(m),
        ids_in_order(m, ids),
        0 <= n <= ids.len(),
    ensures
        ({
            let rs2 = standing_records(records, m, ids) + incoming;
            &&& index_fold(rs2, n) is Ok
            &&& forall|id: Seq<char>| #[trigger]
                index_fold(rs2, n)->Ok_0.contains_key(id) <==> ids.take(n).contains(id)
            &&& forall|j: int|
                0 <= j < n ==> index_fold(rs2, n)->Ok_0[#[trigger] ids[j]] == (m[ids[j]].0, j)
        }),
    decreases n,
{
    let rs2 = standing_records(records, m, ids) + incoming;
    lemma_index_fold_facts(records, records.len() as int);
    if n > 0 {
        lemma_remerge_standing(records, m, ids, incoming, n - 1);
        let mm = index_fold(rs2, n - 1)->Ok_0;
        let id = ids[n - 1];
        assert(ids.contains(id));
        assert(m.contains_key(id));
        assert(rs2[n - 1] == records[m[id].1]);
        assert(keyed(records, m[id].1, id, m[id].0));
        assert(!ids.take(n - 1).contains(id)) by {
            if ids.take(n - 1).contains(id) {
                let q = choose|q: int| 0 <= q < n - 1 && #[trigger] ids.take(n - 1)[q] == id;
                assert(lex_lt(ids[q], ids[n - 1]));
                crate::order::lemma_lex_irreflexive(id);
            }
        }
        assert(!mm.contains_key(id));
        let m1 = index_fold(rs2, n)->Ok_0;
        assert(m1 == mm.insert(id, (m[id].0, n - 1)));
        assert(ids.take(n) =~= ids.take(n - 1).push(id));
        crate::text::lemma_push_contains(ids.take(n - 1), id);
        assert forall|j: int| 0 <= j < n implies m1[#[trigger] ids[j]] == (m[ids[j]].0, j) by {
            if j < n - 1 {
                assert(lex_lt(ids[j], ids[n - 1]));
                crate::order::lemma_lex_irreflexive(ids[j]);
                assert(ids[j] != id);
            }
        }
    }
}

/// What holds after the standing records and the first `n - ids.len()` incoming records.
pub open spec fn remerge_holds(
    records: Seq<JsonLine>,
    m: Map<Seq<char>, ((i64, u32), int)>,
    rs2: Seq<JsonLine>,
    n: int,
) -> bool {
    &&& index_fold(rs2, n) is Ok
    &&& forall|id: Seq<char>| #[trigger]
        index_fold(rs2, n)->Ok_0.contains_key(id) <==> m.contains_key(id)
    &&& forall|id: Seq<char>| #[trigger]
        m.contains_key(id) ==> index_fold(rs2, n)->Ok_0[id].0 == m[id].0 && 0 <= index_fold(
            rs2,
            n,
        )->Ok_0[id].1 < n && json_eq(
            rs2[index_fold(rs2, n)->Ok_0[id].1].value,
            records[m[id].1].value,
        )
}

proof fn lemma_remerge_incoming(
    local: Seq<JsonLine>,
    incoming: Seq<JsonLine>,
    m: Map<Seq<char>, ((i64, u32), int)>,
    ids: Seq<Seq<char>>,
    n: int,
)
    requires
        index_fold(local + incoming, (local + incoming).len() as int) == Ok::<_, MergeError>(m),
        ids_in_order(m, ids),
        ids.len() <= n <= ids.len() + incoming.len(),
    ensures
        remerge_holds(
            local + incoming,
            m,
            standing_records(local + incoming, m, ids) + incoming,
            n,
        ),
    decreases n,
{
    let records = local + incoming;
    let n0 = records.len() as int;
    let standing = standing_records(records, m, ids);
    let rs2 = standing + incoming;
    let base = ids.len() as int;
    lemma_index_fold_facts(records, n0);
    if n == base {
        lemma_remerge_standing(records, m, ids, incoming, base);
        assert(ids.take(base) =~= ids);
        assert forall|id: Seq<char>| #[trigger] m.contains_key(id) implies index_fold(
            rs2,
            n,
        )->Ok_0[id].0 == m[id].0 && 0 <= index_fold(rs2, n)->Ok_0[id].1 < n && json_eq(
            rs2[index_fold(rs2, n)->Ok_0[id].1].value,
            records[m[id].1].value,
        ) by {
            assert(ids.contains(id));
            let j = choose|j: int| 0 <= j < ids.len() && ids[j] == id;
            assert(index_fold(rs2, base)->Ok_0[ids[j]] == (m[ids[j]].0, j));
            assert(rs2[j] == records[m[id].1]);
            crate::json::lemma_json_eq_reflexive(records[m[id].1].value);
        }
        assert forall|id: Seq<char>| #[trigger]
            index_fold(rs2, n)->Ok_0.contains_key(id) <==> m.contains_key(id) by {
            assert(ids.take(base).contains(id) <==> ids.contains(id));
        }
    } else {
        lemma_remerge_incoming(local, incoming, m, ids, n - 1);
        let k = n - 1;
        let mm = index_fold(rs2, k)->Ok_0;
        let p = local.len() + (k - base);
        assert(rs2[k] == records[p]);
        assert(index_key(records[p].value) is Ok);
        let (id, at) = index_key(records[p].value)->Ok_0;
        assert(keyed(records, p, id, at));
        assert(m.contains_key(id));
        let prev = mm[id];
        assert(prev.0 == m[id].0);
        if at == prev.0 {
            assert(json_eq(records[p].value, records[m[id].1].value));
            crate::json::lemma_json_eq_symmetric(rs2[prev.1].value, records[m[id].1].value);
            crate::json::lemma_json_eq_transitive(
                records[p].value,
                records[m[id].1].value,
                rs2[prev.1].value,
            );
            let m1 = index_fold(rs2, n)->Ok_0;
            assert(index_fold(rs2, n) == Ok::<_, MergeError>(mm.insert(id, (at, k))));
            assert forall|x: Seq<char>| #[trigger] m.contains_key(x) implies m1[x].0 == m[x].0
                && 0 <= m1[x].1 < n && json_eq(rs2[m1[x].1].value, records[m[x].1].value) by {
                if x != id {
                    assert(mm.contains_key(x));
                }
            }
        } else {
            assert(instant_lt(at, prev.0));
            assert(index_fold(rs2, n) == Ok::<_, MergeError>(mm));
        }
    }
}

/// Merging the merged index again with the same incoming index keeps it: the same
/// conversations stand, at the same instants, with equal names and contents. A home is not
/// rolled back by a second restore of the same snapshot.
pub proof fn law_index_remerge_stable(
    local: Seq<JsonLine>,
    incoming: Seq<JsonLine>,
    ids: Seq<Seq<char>>,
)
    requires
        merged_index(local, incoming) is Ok,
        ids_in_order(merged_index(local, incoming)->Ok_0, ids),
    ensures
        ({
            let records = local + incoming;
            let m = merged_index(local, incoming)->Ok_0;
            let standing = standing_records(records, m, ids);
            &&& merged_index(standing, incoming) is Ok
            &&& merged_index(standing, incoming)->Ok_0.dom() == m.dom()
            &&& forall|id: Seq<char>| #[trigger]
                m.contains_key(id) ==> merged_index(standing, incoming)->Ok_0[id].0 == m[id].0
                    && json_eq(
                    (standing + incoming)[merged_index(standing, incoming)->Ok_0[id].1].value,
                    records[m[id].1].value,
                )
        }),
{
    let records = local + incoming;
    let m = merged_index(local, incoming)->Ok_0;
    let standing = standing_records(records, m, ids);
    let n = ids.len() + incoming.len();
    lemma_remerge_incoming(local, incoming, m, ids, n as int);
    let m2 = merged_index(standing, incoming)->Ok_0;
    assert(standing.len() == ids.len());
    assert(m2.dom() =~= m.dom());
}

} // verus!
