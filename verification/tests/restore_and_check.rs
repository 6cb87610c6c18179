use syncodex::codex::{
    check_inside_home, check_thread, classify_reply, collect_text, contains_chars, listed,
    read_rollout_path, verify, CodexError, PageStep, Pages, Reply,
};
use syncodex::digest::{fingerprint, Fingerprint};
use syncodex::dump::{
    check_copy, check_integrity, check_inventory_unchanged, database_entry_path, database_names,
    require_history, require_new_output, require_outside_home, DumpError,
};
use syncodex::inject::{
    conflicting_sibling, entry_disposition, existing_target, is_state_database, merge_kind,
    needs_reindex, preflight, unchanged, Change, Disposition, Existing, InjectError, MergeKind,
};
use syncodex::json::Json;
use syncodex::listing::{first_line, is_rollout_entry, rollout_records};
use syncodex::manifest::Entry;

fn s(v: &str) -> Json {
    Json::Str(v.to_string())
}

fn obj(fields: Vec<(&str, Json)>) -> Json {
    Json::Object(fields.into_iter().map(|(k, v)| (k.to_string(), v)).collect())
}

fn entry(path: &str, data: &[u8]) -> Entry {
    let f = fingerprint(data);
    Entry {
        path: path.to_string(),
        size: f.size,
        sha256: f.sha256,
        modified: None,
    }
}

#[test]
fn entries_go_to_their_homes() {
    match entry_disposition("sessions/a.jsonl", false, "/home/c", "/db") {
        Disposition::Restore { target, database } => {
            assert_eq!(target, "/home/c/sessions/a.jsonl");
            assert!(!database);
        }
        other => panic!("{other:?}"),
    }
    match entry_disposition("sqlite/state_5.sqlite", false, "/home/c", "/db/") {
        Disposition::Restore { target, database } => {
            assert_eq!(target, "/db/state_5.sqlite");
            assert!(database);
        }
        other => panic!("{other:?}"),
    }
    assert!(matches!(
        entry_disposition("sqlite/state_5.sqlite", true, "/home/c", "/db"),
        Disposition::KeepDatabase
    ));
    assert!(matches!(
        entry_disposition("history.jsonl", true, "/home/c", "/db"),
        Disposition::Restore { .. }
    ));
}

#[test]
fn identical_files_are_skipped_and_databases_never_replaced() {
    let e = entry("history.jsonl", b"{}\n");
    assert_eq!(
        existing_target(&e, false, "/t", &None).unwrap(),
        Existing::Absent
    );
    assert_eq!(
        existing_target(&e, false, "/t", &Some(fingerprint(b"{}\n"))).unwrap(),
        Existing::Identical
    );
    assert_eq!(
        existing_target(&e, false, "/t", &Some(fingerprint(b"local history"))).unwrap(),
        Existing::Differs
    );
    let db = entry("sqlite/state_5.sqlite", b"db");
    match existing_target(&db, true, "/t/state_5.sqlite", &Some(fingerprint(b"db"))) {
        Err(InjectError::DatabaseExists(t)) => assert_eq!(t, "/t/state_5.sqlite"),
        other => panic!("{other:?}"),
    }
    assert_eq!(
        existing_target(&db, true, "/t/state_5.sqlite", &None).unwrap(),
        Existing::Absent
    );
}

#[test]
fn rollouts_conflict_with_their_other_storage() {
    assert_eq!(
        conflicting_sibling("sessions/r.jsonl", false, "/h/sessions/r.jsonl").unwrap(),
        "/h/sessions/r.jsonl.zst"
    );
    assert_eq!(
        conflicting_sibling("archived_sessions/r.jsonl.zst", false, "/h/archived_sessions/r.jsonl.zst")
            .unwrap(),
        "/h/archived_sessions/r.jsonl"
    );
    assert!(conflicting_sibling("history.jsonl", false, "/h/history.jsonl").is_none());
    assert!(conflicting_sibling("sqlite/state_5.sqlite", true, "/d/state_5.sqlite").is_none());
}

#[test]
fn merge_kinds_follow_the_path() {
    assert_eq!(merge_kind("history.jsonl"), MergeKind::History);
    assert_eq!(merge_kind("session_index.jsonl"), MergeKind::SessionIndex);
    assert_eq!(merge_kind("sessions/x/history.jsonl"), MergeKind::Rollout);
    assert!(is_state_database("sqlite/state_5.sqlite"));
    assert!(!is_state_database("sqlite/thread_history_1.sqlite"));
}

fn change(database: bool) -> Change {
    Change {
        target: "/t".to_string(),
        staged: "/s".to_string(),
        before: None,
        database,
    }
}

#[test]
fn reindex_follows_history_changes_to_an_existing_database() {
    assert!(needs_reindex(&vec![change(true), change(false)], true));
    assert!(!needs_reindex(&vec![change(true), change(false)], false));
    assert!(!needs_reindex(&vec![change(true)], true));
    assert!(!needs_reindex(&vec![], true));
}

#[test]
fn preflight_detects_destination_changes() {
    let a = fingerprint(b"a");
    assert!(preflight("/t", &None, &None).is_ok());
    assert!(preflight("/t", &Some(fingerprint(b"a")), &Some(a)).is_ok());
    match preflight("/t", &Some(fingerprint(b"b")), &Some(fingerprint(b"a"))) {
        Err(InjectError::DestinationChanged(t)) => assert_eq!(t, "/t"),
        other => panic!("{other:?}"),
    }
    assert!(preflight("/t", &Some(fingerprint(b"a")), &None).is_err());
    assert!(preflight("/t", &None, &Some(fingerprint(b"a"))).is_err());
    assert!(unchanged(b"abc", b"abc"));
    assert!(!unchanged(b"abc", b"abd"));
    assert!(!unchanged(b"abc", b"ab"));
}

#[test]
fn dump_checks() {
    assert!(matches!(require_new_output(true), Err(DumpError::OutputExists)));
    assert!(require_new_output(false).is_ok());
    assert!(matches!(require_history(&vec![]), Err(DumpError::NoHistory)));
    assert!(require_history(&vec!["history.jsonl".to_string()]).is_ok());
    assert!(matches!(
        require_outside_home("/home/u/.codex/backups", "/home/u/.codex"),
        Err(DumpError::OutputInsideHome)
    ));
    assert!(require_outside_home("/home/u/backups", "/home/u/.codex").is_ok());
    assert!(require_outside_home("/home/u/.codex-backups", "/home/u/.codex").is_ok());
    let a = fingerprint(b"a");
    assert!(check_copy("p", &a, &fingerprint(b"a"), &fingerprint(b"a")).is_ok());
    match check_copy("p", &a, &fingerprint(b"a"), &fingerprint(b"b")) {
        Err(DumpError::SourceChanged(p)) => assert_eq!(p, "p"),
        other => panic!("{other:?}"),
    }
    let changed_copy = Fingerprint {
        size: 1,
        sha256: String::new(),
    };
    assert!(check_copy("p", &a, &changed_copy, &fingerprint(b"a")).is_err());
    let one = vec!["a".to_string()];
    assert!(check_inventory_unchanged(&one, &vec!["a".to_string()]).is_ok());
    assert!(matches!(
        check_inventory_unchanged(&one, &vec!["a".to_string(), "b".to_string()]),
        Err(DumpError::InventoryChanged)
    ));
    assert!(check_inventory_unchanged(&one, &vec!["b".to_string()]).is_err());
    assert!(check_integrity("ok").is_ok());
    assert!(matches!(
        check_integrity("*** in database main ***"),
        Err(DumpError::InvalidDatabase)
    ));
    assert_eq!(database_names(false), vec!["state_5.sqlite", "thread_history_1.sqlite"]);
    assert!(database_names(true).is_empty());
    assert_eq!(database_entry_path("state_5.sqlite"), "sqlite/state_5.sqlite");
}

#[test]
fn listing_reads_the_first_record() {
    assert!(is_rollout_entry("sessions/a.jsonl"));
    assert!(is_rollout_entry("archived_sessions/a.jsonl.zst"));
    assert!(!is_rollout_entry("history.jsonl"));
    assert_eq!(first_line(b"{\"a\":1}\n{\"b\":2}\n"), b"{\"a\":1}".to_vec());
    assert_eq!(first_line(b"no newline"), b"no newline".to_vec());
    assert_eq!(first_line(b""), Vec::<u8>::new());
    let packed = zstd::encode_all(&b"{\"x\":1}\n"[..], 3).unwrap();
    assert_eq!(
        rollout_records("archived_sessions/a.jsonl.zst", &packed).unwrap(),
        b"{\"x\":1}\n".to_vec()
    );
    assert_eq!(
        rollout_records("sessions/a.jsonl", &packed).unwrap(),
        packed
    );
    assert!(rollout_records("sessions/a.jsonl.zst", &[0, 255, 1, 3]).is_none());
}

#[test]
fn replies_are_matched_by_id_and_server_requests_refused() {
    let reply = obj(vec![("id", Json::UInt(3)), ("result", s("done"))]);
    assert!(matches!(classify_reply(reply, 3), Reply::Result(Json::Str(r)) if r == "done"));
    let failed = obj(vec![("error", s("boom")), ("id", Json::UInt(3))]);
    assert!(matches!(classify_reply(failed, 3), Reply::Failed(_)));
    let null_error = obj(vec![("error", Json::Null), ("id", Json::UInt(3)), ("result", s("r"))]);
    assert!(matches!(classify_reply(null_error, 3), Reply::Failed(Json::Null)));
    let empty = obj(vec![("id", Json::UInt(3))]);
    assert!(matches!(classify_reply(empty, 3), Reply::MissingResult));
    let request = obj(vec![("id", Json::UInt(9)), ("method", s("approve"))]);
    assert!(matches!(classify_reply(request, 3), Reply::Refuse(Json::UInt(9))));
    let notice = obj(vec![("method", s("notice"))]);
    assert!(matches!(classify_reply(notice, 3), Reply::Ignore));
    let other = obj(vec![("id", Json::UInt(2)), ("result", s("late"))]);
    assert!(matches!(classify_reply(other, 3), Reply::Ignore));
    let text_id = obj(vec![("id", s("3")), ("result", s("r"))]);
    assert!(matches!(classify_reply(text_id, 3), Reply::Ignore));
}

#[test]
fn pages_follow_each_cursor_once() {
    let mut pages = Pages::new();
    let first = obj(vec![
        ("data", Json::Array(vec![Json::UInt(1), Json::UInt(2)])),
        ("nextCursor", s("c1")),
    ]);
    assert!(matches!(pages.absorb(first), Ok(PageStep::Next(c)) if c == "c1"));
    let second = obj(vec![
        ("data", Json::Array(vec![Json::UInt(3)])),
        ("nextCursor", Json::Null),
    ]);
    assert!(matches!(pages.absorb(second), Ok(PageStep::Done)));
    assert_eq!(pages.data.len(), 3);
    let again = obj(vec![("data", Json::Array(vec![])), ("nextCursor", s("c1"))]);
    assert!(matches!(pages.absorb(again), Err(CodexError::RepeatedCursor)));
    let broken = obj(vec![("nextCursor", s("c2"))]);
    assert!(matches!(pages.absorb(broken), Err(CodexError::MissingPageData)));
}

fn message(kind: &str, text: &str) -> Json {
    obj(vec![(
        "item",
        obj(vec![
            (
                "content",
                Json::Array(vec![obj(vec![("text", s(text)), ("type", s("text"))])]),
            ),
            ("type", s(kind)),
        ]),
    )])
}

#[test]
fn message_text_is_collected_from_text_members() {
    let mut out = String::new();
    collect_text(
        &obj(vec![
            ("a", Json::Array(vec![obj(vec![("text", s("one"))]), obj(vec![("text", Json::UInt(1))])])),
            ("text", s("two")),
        ]),
        &mut out,
    );
    assert_eq!(out, "one\ntwo\n");
    let mut nested = String::new();
    collect_text(&obj(vec![("text", obj(vec![("text", s("hidden"))]))]), &mut nested);
    assert_eq!(nested, "");
}

#[test]
fn restored_conversation_must_show_expected_texts() {
    let turns = vec![Json::Null];
    let items = vec![
        message("userMessage", "ここにcodexの履歴"),
        message("reasoning", "secret plan"),
        message("agentMessage", "上流コードを調査し"),
    ];
    let summary = verify(
        &turns,
        &items,
        &vec!["ここにcodexの履歴".to_string(), "上流コードを調査し".to_string()],
    )
    .unwrap();
    assert_eq!(summary.turns, 1);
    assert_eq!(summary.items, 3);
    assert_eq!(summary.message_items, 2);
    match verify(&turns, &items, &vec!["secret plan".to_string()]) {
        Err(CodexError::ExpectedTextAbsent(p)) => assert_eq!(p, "secret plan"),
        other => panic!("{other:?}"),
    }
    assert!(matches!(
        verify(&vec![], &items, &vec![]),
        Err(CodexError::EmptyConversation)
    ));
    assert!(matches!(
        verify(&turns, &vec![], &vec![]),
        Err(CodexError::EmptyConversation)
    ));
}

#[test]
fn thread_replies_are_checked() {
    let read = obj(vec![(
        "thread",
        obj(vec![("id", s("t1")), ("path", s("/h/sessions/r.jsonl"))]),
    )]);
    assert_eq!(read_rollout_path(&read, "t1").unwrap(), "/h/sessions/r.jsonl");
    assert!(matches!(read_rollout_path(&read, "t2"), Err(CodexError::WrongThread)));
    let no_path = obj(vec![("thread", obj(vec![("id", s("t1"))]))]);
    assert!(matches!(read_rollout_path(&no_path, "t1"), Err(CodexError::NoRolloutPath)));
    assert!(check_thread(&read, "t1").is_ok());
    assert!(check_thread(&Json::Null, "t1").is_err());
    assert!(check_inside_home("/h/sessions/r.jsonl", "/h").is_ok());
    assert!(matches!(
        check_inside_home("/other/r.jsonl", "/h"),
        Err(CodexError::OutsideHome)
    ));
    let threads = vec![obj(vec![("id", s("t0"))]), obj(vec![("id", s("t1"))])];
    assert!(listed(&threads, "t1"));
    assert!(!listed(&threads, "t2"));
}

#[test]
fn substring_search() {
    let hay: Vec<char> = "hello world".chars().collect();
    assert!(contains_chars(&hay, &"lo w".chars().collect::<Vec<_>>()));
    assert!(contains_chars(&hay, &[]));
    assert!(contains_chars(&hay, &hay));
    assert!(!contains_chars(&hay, &"worlds".chars().collect::<Vec<_>>()));
    assert!(!contains_chars(&[], &['a']));
}

#[test]
fn one_storage_per_rollout() {
    assert!(syncodex::inject::require_single_storage("/h/r.jsonl", false).is_ok());
    match syncodex::inject::require_single_storage("/h/r.jsonl", true) {
        Err(InjectError::StorageConflict(t)) => assert_eq!(t, "/h/r.jsonl"),
        other => panic!("{other:?}"),
    }
}
