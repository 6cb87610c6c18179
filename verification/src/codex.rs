//! The decisions of examining a restored conversation with the Codex app-server: how its
//! replies are read, how result pages are gathered, and what the restored conversation must
//! show.
use vstd::prelude::*;
use crate::json::{Json, json_index, json_member, json_str, member_from};
use crate::order::NameSet;
use crate::paths::{below, is_within, path_within};
use crate::text::{chars_eq, chars_of, push_chars};

verus! {

/// Why a restored conversation was refused.
#[derive(Debug)]
pub enum CodexError {
    /// A page of results has no `data` array.
    MissingPageData,
    /// The server handed out a page cursor twice.
    RepeatedCursor,
    /// The server answered about another conversation.
    WrongThread,
    /// The server reports no local rollout path.
    NoRolloutPath,
    /// The rollout the server reads lies outside the restored home.
    OutsideHome,
    /// The conversation has no turns or no items.
    EmptyConversation,
    /// An expected text is absent from the conversation's messages.
    ExpectedTextAbsent(String),
}

// ---------------------------------------------------------------------------------------
// Replies
// ---------------------------------------------------------------------------------------

/// What to do with one message read from the server while waiting for the reply to the
/// request with id `expected`.
#[derive(Debug)]
pub enum Reply {
    /// The reply, with its result.
    Result(Json),
    /// The reply reports an error.
    Failed(Json),
    /// The reply has neither error nor result.
    MissingResult,
    /// A request from the server: it is answered with an error and never approved.
    Refuse(Json),
    /// A notification or an unrelated message: it is passed over.
    Ignore,
}

/// A message answers the request `expected` when its `id` is that unsigned integer.
pub open spec fn answers(msg: Json, expected: u64) -> bool {
    json_index(msg, "id"@) == Json::UInt(expected)
}

/// How a message read from the server is handled (see [`Reply`]).
pub open spec fn spec_reply(msg: Json, expected: u64) -> Reply {
    if answers(msg, expected) {
        match json_member(msg, "error"@) {
            Some(e) => Reply::Failed(e),
            None => match json_member(msg, "result"@) {
                Some(r) => Reply::Result(r),
                None => Reply::MissingResult,
            },
        }
    } else if json_member(msg, "id"@) is Some && json_member(msg, "method"@) is Some {
        Reply::Refuse(json_member(msg, "id"@)->Some_0)
    } else {
        Reply::Ignore
    }
}

/// Reads one message from the server while waiting for the reply to request `expected`.
pub fn classify_reply(msg: Json, expected: u64) -> (r: Reply)
    ensures
        r == spec_reply(msg, expected),
{
    proof {
        reveal_strlit("id");
        reveal_strlit("error");
        reveal_strlit("result");
        reveal_strlit("method");
    }
    let is_reply = match msg.get("id") {
        Some(Json::UInt(n)) => *n == expected,
        _ => false,
    };
    if is_reply {
        if msg.get("error").is_some() {
            return match msg.into_member("error") {
                Some(e) => Reply::Failed(e),
                None => Reply::MissingResult,
            };
        }
        return match msg.into_member("result") {
            Some(v) => Reply::Result(v),
            None => Reply::MissingResult,
        };
    }
    if msg.get("id").is_some() && msg.get("method").is_some() {
        return match msg.into_member("id") {
            Some(id) => Reply::Refuse(id),
            None => Reply::Ignore,
        };
    }
    Reply::Ignore
}

// ---------------------------------------------------------------------------------------
// Pages
// ---------------------------------------------------------------------------------------

/// The items of a paged listing gathered so far, and the cursors already followed.
pub struct Pages {
    pub data: Vec<Json>,
    pub cursors: NameSet,
}

/// What to do after a page.
#[derive(Debug)]
pub enum PageStep {
    /// Request the page at this cursor.
    Next(String),
    /// The listing is complete.
    Done,
}

impl Pages {
    /// Whether the cursor `c` was followed already.
    pub open spec fn followed(&self, c: Seq<char>) -> bool {
        self.cursors.contains(c)
    }

    /// Nothing gathered yet.
    pub fn new() -> (p: Pages)
        ensures
            p.data@.len() == 0,
            forall|c: Seq<char>| !p.followed(c),
    {
        Pages { data: Vec::new(), cursors: NameSet::new() }
    }

    /// Takes in one page of results: its `data` items are added in order; a string
    /// `nextCursor` not followed before is the next page to request; a cursor followed
    /// before fails, so that no page is requested twice.
    pub fn absorb(&mut self, page: Json) -> (r: Result<PageStep, CodexError>)
        ensures
            match json_member(page, "data"@) {
                Some(Json::Array(items)) => {
                    &&& final(self).data@ == old(self).data@ + items@
                    &&& match json_member(page, "nextCursor"@) {
                        Some(Json::Str(c)) => if old(self).followed(c@) {
                            r matches Err(CodexError::RepeatedCursor)
                        } else {
                            &&& r matches Ok(PageStep::Next(n)) && n@ == c@
                            &&& forall|x: Seq<char>|
                                final(self).followed(x) <==> (old(self).followed(x) || x == c@)
                        },
                        _ => r matches Ok(PageStep::Done),
                    }
                },
                _ => r matches Err(CodexError::MissingPageData),
            },
            r is Ok ==> forall|x: Seq<char>|
                old(self).followed(x) ==> #[trigger] final(self).followed(x),
    {
        proof {
            reveal_strlit("data");
            reveal_strlit("nextCursor");
        }
        let cursor: Option<String> = match page.get("nextCursor") {
            Some(Json::Str(c)) => Some(c.clone()),
            _ => None,
        };
        let items = match page.into_member("data") {
            Some(Json::Array(items)) => items,
            _ => {
                return Err(CodexError::MissingPageData);
            },
        };
        let mut items = items;
        self.data.append(&mut items);
        match cursor {
            None => Ok(PageStep::Done),
            Some(c) => {
                let cs = chars_of(c.as_str());
                if self.cursors.has(&cs) {
                    return Err(CodexError::RepeatedCursor);
                }
                self.cursors.insert(cs);
                Ok(PageStep::Next(c))
            },
        }
    }
}

// ---------------------------------------------------------------------------------------
// Message text
// ---------------------------------------------------------------------------------------

/// The text of every `"text"` member with a string value found in a value, each followed
/// by a line feed, in document order; a `"text"` member is not searched further.
pub open spec fn text_of(j: Json) -> Seq<char>
    decreases j, 0int,
{
    match j {
        Json::Object(fields) => fields_text(fields@, 0),
        Json::Array(items) => items_text(items@, 0),
        _ => seq![],
    }
}

/// The text found in the members `i..` of an object.
pub open spec fn fields_text(fields: Seq<(String, Json)>, i: int) -> Seq<char>
    decreases fields, fields.len() - i,
{
    if i < 0 || i >= fields.len() {
        seq![]
    } else {
        let own = if fields[i].0@ == "text"@ {
            match fields[i].1 {
                Json::Str(s) => s@ + seq!['\n'],
                _ => seq![],
            }
        } else {
            text_of(fields[i].1)
        };
        own + fields_text(fields, i + 1)
    }
}

/// The text found in the items `i..` of an array.
pub open spec fn items_text(items: Seq<Json>, i: int) -> Seq<char>
    decreases items, items.len() - i,
{
    if i < 0 || i >= items.len() {
        seq![]
    } else {
        text_of(items[i]) + items_text(items, i + 1)
    }
}

/// Appends the text found in `j` (see [`text_of`]).
pub fn collect_text(j: &Json, out: &mut String)
    ensures
        final(out)@ == old(out)@ + text_of(*j),
    decreases *j,
{
    proof {
        reveal_strlit("text");
    }
    match j {
        Json::Object(fields) => {
            let n = fields.len();
            let mut i: usize = 0;
            let key = "text".to_owned();
            while i < n
                invariant
                    n == fields@.len(),
                    i <= n,
                    key@ == "text"@,
                    text_of(*j) == fields_text(fields@, 0),
                    old(out)@ + fields_text(fields@, 0) == out@ + fields_text(fields@, i as int),
                    forall|k: int| 0 <= k < n ==> decreases_to!(*j => #[trigger] fields@[k].1),
                decreases n - i,
            {
                let ghost before = out@;
                if fields[i].0 == key {
                    if let Json::Str(s) = &fields[i].1 {
                        push_chars(out, &chars_of(s.as_str()));
                        out.push('\n');
                    }
                } else {
                    collect_text(&fields[i].1, out);
                }
                proof {
                    assert(out@ + fields_text(fields@, i + 1) =~= before + fields_text(
                        fields@,
                        i as int,
                    ));
                }
                i += 1;
            }
            proof {
                assert(out@ + fields_text(fields@, n as int) =~= out@);
            }
        },
        Json::Array(items) => {
            let n = items.len();
            let mut i: usize = 0;
            while i < n
                invariant
                    n == items@.len(),
                    i <= n,
                    text_of(*j) == items_text(items@, 0),
                    old(out)@ + items_text(items@, 0) == out@ + items_text(items@, i as int),
                    forall|k: int| 0 <= k < n ==> decreases_to!(*j => #[trigger] items@[k]),
                decreases n - i,
            {
                let ghost before = out@;
                proof {
                    assert(decreases_to!(*j => items@[i as int]));
                }
                collect_text(&items[i], out);
                proof {
                    assert(out@ + items_text(items@, i + 1) =~= before + items_text(
                        items@,
                        i as int,
                    ));
                }
                i += 1;
            }
            proof {
                assert(out@ + items_text(items@, n as int) =~= out@);
            }
        },
        _ => {
            proof {
                assert(out@ =~= out@ + text_of(*j));
            }
        },
    }
}

/// A listed item is a message of the user or of the agent.
pub open spec fn is_message_item(v: Json) -> bool {
    let t = json_str(json_index(json_index(v, "item"@), "type"@));
    t == Some("userMessage"@) || t == Some("agentMessage"@)
}

fn is_message_item_exec(v: &Json) -> (r: bool)
    ensures
        r == is_message_item(*v),
{
    proof {
        reveal_strlit("item");
        reveal_strlit("type");
        reveal_strlit("userMessage");
        reveal_strlit("agentMessage");
    }
    let item = match v.get("item") {
        Some(x) => x,
        None => {
            return false;
        },
    };
    let t = match item.member_str("type") {
        Some(t) => chars_of(t.as_str()),
        None => {
            return false;
        },
    };
    chars_eq(&t, &chars_of("userMessage")) || chars_eq(&t, &chars_of("agentMessage"))
}

/// The text of the messages among listed items, item by item in order.
pub open spec fn messages_text(items: Seq<Json>, n: int) -> Seq<char>
    decreases n,
{
    if n <= 0 {
        seq![]
    } else if is_message_item(items[n - 1]) {
        messages_text(items, n - 1) + text_of(json_index(items[n - 1], "item"@))
    } else {
        messages_text(items, n - 1)
    }
}

/// The number of messages among the first `n` listed items.
pub open spec fn message_count(items: Seq<Json>, n: int) -> nat
    decreases n,
{
    if n <= 0 {
        0
    } else if is_message_item(items[n - 1]) {
        message_count(items, n - 1) + 1
    } else {
        message_count(items, n - 1)
    }
}

/// `needle` occurs in `hay`.
pub open spec fn contains_text(hay: Seq<char>, needle: Seq<char>) -> bool {
    exists|i: int| 0 <= i <= hay.len() - needle.len() && #[trigger] hay.subrange(i, i + needle.len()) == needle
}

/// Whether `needle` occurs in `hay` (see [`contains_text`]).
pub fn contains_chars(hay: &[char], needle: &[char]) -> (r: bool)
    ensures
        r == contains_text(hay@, needle@),
{
    if needle.len() == 0 {
        proof {
            assert(hay@.subrange(0int, 0int + needle@.len()) =~= needle@);
        }
        return true;
    }
    if needle.len() > hay.len() {
        return false;
    }
    let last = hay.len() - needle.len();
    let mut i: usize = 0;
    while i <= last
        invariant
            last + needle@.len() == hay@.len(),
            hay.len() == hay@.len(),
            needle@.len() > 0,
            i <= last + 1,
            forall|k: int| 0 <= k < i ==> #[trigger] hay@.subrange(k, k + needle@.len()) != needle@,
        decreases last + 1 - i,
    {
        let m = needle.len();
        let mut j: usize = 0;
        let mut same = true;
        while j < m
            invariant
                m == needle@.len(),
                i + m <= hay@.len(),
                hay.len() == hay@.len(),
                j <= m,
                same == forall|k: int| 0 <= k < j ==> hay@[i + k] == needle@[k],
            decreases m - j,
        {
            if hay[i + j] != needle[j] {
                same = false;
            }
            j += 1;
        }
        if same {
            proof {
                assert(hay@.subrange(i as int, i + needle@.len()) =~= needle@);
            }
            return true;
        }
        proof {
            let k = choose|k: int| 0 <= k < m && hay@[i + k] != needle@[k];
            assert(hay@.subrange(i as int, i + needle@.len())[k] != needle@[k]);
        }
        i += 1;
    }
    false
}

/// What the examination of a restored conversation found.
#[derive(Debug)]
pub struct MessageSummary {
    pub turns: usize,
    pub items: usize,
    pub message_items: usize,
}

/// Checks the listed turns and items of a restored conversation: it has turns and items,
/// and every expected text occurs in the text of its user and agent messages.
pub fn verify(turns: &Vec<Json>, items: &Vec<Json>, expected: &Vec<String>) -> (r: Result<
    MessageSummary,
    CodexError,
>)
    ensures
        turns@.len() == 0 || items@.len() == 0 ==> r matches Err(CodexError::EmptyConversation),
        turns@.len() > 0 && items@.len() > 0 ==> {
            let text = messages_text(items@, items@.len() as int);
            &&& r is Ok <==> forall|k: int|
                0 <= k < expected@.len() ==> contains_text(text, #[trigger] expected@[k]@)
            &&& r matches Ok(s) ==> s.turns == turns@.len() && s.items == items@.len()
                && s.message_items == message_count(items@, items@.len() as int)
            &&& r matches Err(e) ==> e matches CodexError::ExpectedTextAbsent(p) && exists|k: int|
                0 <= k < expected@.len() && p@ == expected@[k]@ && !contains_text(text, p@)
        },
{
    if turns.len() == 0 || items.len() == 0 {
        return Err(CodexError::EmptyConversation);
    }
    proof {
        reveal_strlit("item");
    }
    let mut text = String::new();
    let mut count: usize = 0;
    let n = items.len();
    let mut i: usize = 0;
    while i < n
        invariant
            n == items@.len(),
            i <= n,
            count <= i,
            text@ == messages_text(items@, i as int),
            count == message_count(items@, i as int),
        decreases n - i,
    {
        if is_message_item_exec(&items[i]) {
            match items[i].get("item") {
                Some(inner) => collect_text(inner, &mut text),
                None => {},
            }
            count += 1;
        }
        i += 1;
    }
    let chars = chars_of(text.as_str());
    let m = expected.len();
    let mut k: usize = 0;
    while k < m
        invariant
            m == expected@.len(),
            turns@.len() > 0,
            items@.len() > 0,
            k <= m,
            chars@ == messages_text(items@, items@.len() as int),
            forall|q: int| 0 <= q < k ==> contains_text(chars@, #[trigger] expected@[q]@),
        decreases m - k,
    {
        if !contains_chars(&chars, &chars_of(expected[k].as_str())) {
            return Err(CodexError::ExpectedTextAbsent(expected[k].clone()));
        }
        k += 1;
    }
    Ok(MessageSummary { turns: turns.len(), items: items.len(), message_items: count })
}

/// The conversation a reply is about: the `id` of its `thread`.
pub open spec fn reply_thread(reply: Json) -> Json {
    json_index(json_index(reply, "thread"@), "id"@)
}

/// Checks that a reply is about the conversation `thread_id`.
pub fn check_thread(reply: &Json, thread_id: &str) -> (r: Result<(), CodexError>)
    ensures
        r is Ok <==> json_str(reply_thread(*reply)) == Some(thread_id@),
{
    proof {
        reveal_strlit("thread");
        reveal_strlit("id");
    }
    let id = match reply.get("thread") {
        Some(t) => t.member_str("id"),
        None => None,
    };
    match id {
        Some(s) => {
            if chars_eq(&chars_of(s.as_str()), &chars_of(thread_id)) {
                Ok(())
            } else {
                Err(CodexError::WrongThread)
            }
        },
        None => Err(CodexError::WrongThread),
    }
}

/// The local rollout path that a `thread/read` reply for `thread_id` reports.
pub fn read_rollout_path(reply: &Json, thread_id: &str) -> (r: Result<String, CodexError>)
    ensures
        json_str(reply_thread(*reply)) != Some(thread_id@) ==> r matches Err(
            CodexError::WrongThread,
        ),
        json_str(reply_thread(*reply)) == Some(thread_id@) ==> match json_str(
            json_index(json_index(*reply, "thread"@), "path"@),
        ) {
            Some(p) => r matches Ok(s) && s@ == p,
            None => r matches Err(CodexError::NoRolloutPath),
        },
{
    proof {
        reveal_strlit("thread");
        reveal_strlit("path");
    }
    if check_thread(reply, thread_id).is_err() {
        return Err(CodexError::WrongThread);
    }
    let path = match reply.get("thread") {
        Some(t) => t.member_str("path"),
        None => None,
    };
    match path {
        Some(p) => Ok(p.clone()),
        None => Err(CodexError::NoRolloutPath),
    }
}

/// The rollout the server reads (resolved) must lie inside the restored home (resolved).
pub fn check_inside_home(rollout: &str, home: &str) -> (r: Result<(), CodexError>)
    ensures
        r is Ok <==> path_within(rollout@, home@),
        rollout@ == home@ || below(rollout@, home@) ==> r is Ok,
{
    if is_within(rollout, home) {
        Ok(())
    } else {
        Err(CodexError::OutsideHome)
    }
}

/// Whether the conversation `thread_id` is among the listed threads.
pub fn listed(threads: &Vec<Json>, thread_id: &str) -> (r: bool)
    ensures
        r == exists|k: int|
            0 <= k < threads@.len() && json_str(json_index(#[trigger] threads@[k], "id"@)) == Some(
                thread_id@,
            ),
{
    proof {
        reveal_strlit("id");
    }
    let want = chars_of(thread_id);
    let n = threads.len();
    let mut i: usize = 0;
    while i < n
        invariant
            n == threads@.len(),
            i <= n,
            want@ == thread_id@,
            forall|k: int|
                0 <= k < i ==> json_str(json_index(#[trigger] threads@[k], "id"@)) != Some(
                    thread_id@,
                ),
        decreases n - i,
    {
        if let Some(s) = threads[i].member_str("id") {
            if chars_eq(&chars_of(s.as_str()), &want) {
                return true;
            }
        }
        i += 1;
    }
    false
}

} // verus!

verus! {

/// Whether a member named `text` occurs anywhere in `j`, at any depth.
pub open spec fn mentions_text(j: Json) -> bool
    decreases j, 0int,
{
    match j {
        Json::Object(fields) => fields_mention_text(fields@, 0),
        Json::Array(items) => items_mention_text(items@, 0),
        _ => false,
    }
}

/// Whether a member named `text` occurs in the members `i..` of an object or below them.
pub open spec fn fields_mention_text(fields: Seq<(String, Json)>, i: int) -> bool
    decreases fields, fields.len() - i,
{
    if i < 0 || i >= fields.len() {
        false
    } else {
        fields[i].0@ == "text"@ || mentions_text(fields[i].1) || fields_mention_text(fields, i + 1)
    }
}

/// Whether a member named `text` occurs in the items `i..` of an array or below them.
pub open spec fn items_mention_text(items: Seq<Json>, i: int) -> bool
    decreases items, items.len() - i,
{
    if i < 0 || i >= items.len() {
        false
    } else {
        mentions_text(items[i]) || items_mention_text(items, i + 1)
    }
}

proof fn lemma_no_text_fields(fields: Seq<(String, Json)>, i: int)
    requires
        !fields_mention_text(fields, i),
    ensures
        fields_text(fields, i) == Seq::<char>::empty(),
    decreases fields, fields.len() - i,
{
    if 0 <= i < fields.len() {
        law_text_comes_only_from_text_members(fields[i].1);
        lemma_no_text_fields(fields, i + 1);
        assert(Seq::<char>::empty() + Seq::<char>::empty() =~= Seq::<char>::empty());
    }
}

proof fn lemma_no_text_items(items: Seq<Json>, i: int)
    requires
        !items_mention_text(items, i),
    ensures
        items_text(items, i) == Seq::<char>::empty(),
    decreases items, items.len() - i,
{
    if 0 <= i < items.len() {
        law_text_comes_only_from_text_members(items[i]);
        lemma_no_text_items(items, i + 1);
        assert(Seq::<char>::empty() + Seq::<char>::empty() =~= Seq::<char>::empty());
    }
}

/// The collected text is made only of the string values of members named `text`: a value
/// with no such member at any depth (a bare string, a number, `{"id":"msg-1"}`) gives no
/// text at all.
pub proof fn law_text_comes_only_from_text_members(j: Json)
    requires
        !mentions_text(j),
    ensures
        text_of(j) == Seq::<char>::empty(),
    decreases j, 0int,
{
    match j {
        Json::Object(fields) => lemma_no_text_fields(fields@, 0),
        Json::Array(items) => lemma_no_text_items(items@, 0),
        _ => {},
    }
}

/// In an object whose only text-bearing member is one named `text`, the collected text is
/// that member's string followed by a line feed, or nothing when its value is not a
/// string (a `text` member is not searched further).
pub proof fn law_text_member_gives_its_string(fields: Seq<(String, Json)>, k: int)
    requires
        0 <= k < fields.len(),
        fields[k].0@ == "text"@,
        others_without_text(fields, k),
    ensures
        fields_text(fields, 0) == member_text(fields[k].1),
{
    lemma_text_fields_around(fields, 0, k);
}

/// No member but the one at `k` is named `text` or holds a `text` member.
pub open spec fn others_without_text(fields: Seq<(String, Json)>, k: int) -> bool {
    forall|j: int|
        0 <= j < fields.len() && j != k ==> fields[j].0@ != "text"@ && !mentions_text(
            #[trigger] fields[j].1,
        )
}

/// What a member named `text` contributes: its string and a line feed, or nothing.
pub open spec fn member_text(v: Json) -> Seq<char> {
    match v {
        Json::Str(s) => s@ + seq!['\n'],
        _ => Seq::<char>::empty(),
    }
}

proof fn lemma_text_fields_around(fields: Seq<(String, Json)>, i: int, k: int)
    requires
        0 <= i <= fields.len(),
        0 <= k < fields.len(),
        fields[k].0@ == "text"@,
        others_without_text(fields, k),
    ensures
        fields_text(fields, i) == if i <= k {
            member_text(fields[k].1)
        } else {
            Seq::<char>::empty()
        },
    decreases fields.len() - i,
{
    if i < fields.len() {
        lemma_text_fields_around(fields, i + 1, k);
        if i != k {
            law_text_comes_only_from_text_members(fields[i].1);
            assert(Seq::<char>::empty() + fields_text(fields, i + 1) =~= fields_text(fields, i + 1));
        } else {
            assert(member_text(fields[k].1) + Seq::<char>::empty() =~= member_text(fields[k].1));
        }
    }
}

} // verus!
