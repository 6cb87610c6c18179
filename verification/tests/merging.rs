use syncodex::index::{merge_index_parsed, merge_session_index};
use syncodex::json::{Json, JsonLine};
use syncodex::jsonl::{split_lines, FrameError};
use syncodex::merge::{choose_rollout, merge_history, merge_rollout, MergeError};

fn s(v: &str) -> Json {
    Json::Str(v.to_string())
}

fn obj(fields: Vec<(&str, Json)>) -> Json {
    let mut fields: Vec<(String, Json)> = fields
        .into_iter()
        .map(|(k, v)| (k.to_string(), v))
        .collect();
    fields.sort_by(|a, b| a.0.cmp(&b.0));
    Json::Object(fields)
}

fn history(session: &str, ts: u64, text: &str) -> JsonLine {
    JsonLine {
        value: obj(vec![
            ("session_id", s(session)),
            ("ts", Json::UInt(ts)),
            ("text", s(text)),
        ]),
        text: format!("{{\"session_id\":\"{session}\",\"text\":\"{text}\",\"ts\":{ts}}}"),
    }
}

fn name(id: &str, thread_name: &str, at: &str) -> JsonLine {
    JsonLine {
        value: obj(vec![
            ("id", s(id)),
            ("thread_name", s(thread_name)),
            ("updated_at", s(at)),
        ]),
        text: format!("{{\"id\":\"{id}\",\"thread_name\":\"{thread_name}\",\"updated_at\":\"{at}\"}}"),
    }
}

#[test]
fn rollout_prefix_extension_wins_both_ways() {
    let old = b"{\"a\":1}\n".to_vec();
    let new = b"{\"a\":1}\n{\"b\":2}\n".to_vec();
    let p = "sessions/r.jsonl";
    assert_eq!(merge_rollout(p, &old, &new).unwrap(), new);
    assert_eq!(merge_rollout(p, &new, &old).unwrap(), new);
    assert_eq!(merge_rollout(p, &new, &new).unwrap(), new);
    assert_eq!(merge_rollout(p, b"", &new).unwrap(), new);
}

#[test]
fn rollout_divergence_and_partial_lines_conflict() {
    let p = "sessions/r.jsonl";
    assert!(matches!(
        merge_rollout(p, b"{\"type\":\"different\"}\n", b"{\"type\":\"session_meta\"}\n"),
        Err(MergeError::DivergentRollout)
    ));
    // A shorter version that ends inside a line is no complete-line prefix.
    assert!(matches!(
        merge_rollout(p, b"{\"a\":1}\n{\"b\"", b"{\"a\":1}\n{\"b\":2}\n"),
        Err(MergeError::DivergentRollout)
    ));
    assert!(matches!(
        merge_rollout(p, b"abc", b"abc"),
        Err(MergeError::DivergentRollout)
    ));
}

#[test]
fn compressed_rollouts_merge_by_their_records() {
    let old = zstd::encode_all(&b"{\"a\":1}\n"[..], 3).unwrap();
    let new = zstd::encode_all(&b"{\"a\":1}\n{\"b\":2}\n"[..], 19).unwrap();
    let p = "archived_sessions/r.jsonl.zst";
    assert_eq!(merge_rollout(p, &old, &new).unwrap(), new);
    assert_eq!(merge_rollout(p, &new, &old).unwrap(), new);
    assert!(matches!(
        merge_rollout(p, &[0, 255, 1, 3], &new),
        Err(MergeError::Decompress)
    ));
    // The same bytes under a plain path are compared as they are.
    assert!(matches!(
        merge_rollout("sessions/r.jsonl", &old, &new),
        Err(MergeError::DivergentRollout)
    ));
}

#[test]
fn jsonl_framing_keeps_non_blank_lines() {
    let lines = split_lines("a\r\n\n  \t\nb\n\u{3000}\nc\r".as_bytes()).unwrap();
    assert_eq!(lines, vec!["a", "b", "c\r"]);
    assert_eq!(split_lines(b"").unwrap(), Vec::<String>::new());
    assert_eq!(split_lines(b"x").unwrap(), vec!["x"]);
    assert!(matches!(split_lines(&[0xff, b'\n']), Err(FrameError::NotUtf8)));
}

#[test]
fn history_merge_is_a_union_without_new_duplicates() {
    let local = vec![history("example", 1, "hello")];
    let incoming = vec![
        history("example", 2, "new"),
        history("example", 1, "hello"),
        history("example", 2, "new"),
    ];
    let merged = merge_history(&local, &incoming).unwrap();
    assert_eq!(
        merged,
        format!("{}\n{}\n", local[0].text, incoming[0].text)
    );
    assert_eq!(merged.lines().count(), 2);
}

#[test]
fn history_merge_is_idempotent() {
    let local = vec![history("a", 1, "x")];
    let incoming = vec![history("b", 2, "y")];
    let once = merge_history(&local, &incoming).unwrap();
    let merged_records = vec![history("a", 1, "x"), history("b", 2, "y")];
    assert_eq!(merge_history(&merged_records, &incoming).unwrap(), once);
}

#[test]
fn history_merge_drops_local_duplicates_and_rejects_invalid_incoming() {
    let local = vec![history("a", 1, "x"), history("b", 2, "y"), history("a", 1, "x")];
    assert_eq!(
        merge_history(&local, &Vec::new()).unwrap(),
        format!("{}\n{}\n", local[0].text, local[1].text)
    );
    let incoming = vec![history("b", 2, "y"), history("c", 3, "z")];
    assert_eq!(
        merge_history(&local, &incoming).unwrap(),
        format!("{}\n{}\n{}\n", local[0].text, local[1].text, incoming[1].text)
    );
    let bad = JsonLine {
        value: obj(vec![("session_id", s("a")), ("ts", s("1")), ("text", s("x"))]),
        text: "bad".to_string(),
    };
    assert!(matches!(
        merge_history(&local, &vec![bad]),
        Err(MergeError::InvalidHistoryEntry)
    ));
    let negative = JsonLine {
        value: obj(vec![
            ("session_id", s("a")),
            ("ts", Json::NegInt(-1)),
            ("text", s("x")),
        ]),
        text: "negative".to_string(),
    };
    assert!(merge_history(&local, &vec![negative]).is_err());
}

#[test]
fn newest_name_wins() {
    let local = vec![name("example", "name", "2026-09-10T00:00:00Z")];
    let incoming = vec![name("example", "renamed", "2026-09-11T00:00:00Z")];
    let merged = merge_session_index(&local, &incoming).unwrap();
    assert_eq!(merged, format!("{}\n", incoming[0].text));
    let back = merge_session_index(&incoming, &local).unwrap();
    assert_eq!(back, merged);
}

#[test]
fn equal_time_names_conflict_unless_identical() {
    let a = name("example", "name", "2026-09-10T00:00:00Z");
    let b = name("example", "other", "2026-09-10T00:00:00Z");
    match merge_session_index(&vec![b], &vec![a]) {
        Err(MergeError::ConflictingNames(id)) => assert_eq!(id, "example"),
        other => panic!("{other:?}"),
    }
    let a = name("example", "name", "2026-09-10T00:00:00Z");
    let same = name("example", "name", "2026-09-10T01:00:00+01:00");
    // The offsets name one instant; the values differ in text, so the names conflict.
    assert!(merge_session_index(&vec![a], &vec![same]).is_err());
    let a = name("example", "name", "2026-09-10T00:00:00Z");
    let again = name("example", "name", "2026-09-10T00:00:00Z");
    assert_eq!(
        merge_session_index(&vec![a], &vec![again]).unwrap().lines().count(),
        1
    );
}

#[test]
fn index_is_sorted_by_id_and_order_independent() {
    let local = vec![
        name("b", "B", "2026-01-01T00:00:00Z"),
        name("a", "A", "2026-01-02T00:00:00Z"),
    ];
    let incoming = vec![
        name("c", "C", "2026-01-01T00:00:00Z"),
        name("a", "A old", "2026-01-01T00:00:00Z"),
    ];
    let merged = merge_session_index(&local, &incoming).unwrap();
    let ids: Vec<&str> = merged
        .lines()
        .map(|l| &l[7..8])
        .collect();
    assert_eq!(ids, vec!["a", "b", "c"]);
    assert!(merged.contains("\"A\""));
    assert!(!merged.contains("A old"));
    assert_eq!(merge_session_index(&incoming, &local).unwrap(), merged);
}

#[test]
fn index_records_need_id_name_and_time() {
    let ok = name("x", "n", "2026-01-01T00:00:00Z");
    let no_id = JsonLine {
        value: obj(vec![("thread_name", s("n")), ("updated_at", s("2026-01-01T00:00:00Z"))]),
        text: String::new(),
    };
    assert!(matches!(
        merge_session_index(&vec![no_id], &vec![]),
        Err(MergeError::MissingIndexId)
    ));
    let no_name = JsonLine {
        value: obj(vec![("id", s("x")), ("updated_at", s("2026-01-01T00:00:00Z"))]),
        text: String::new(),
    };
    assert!(matches!(
        merge_session_index(&vec![ok], &vec![no_name]),
        Err(MergeError::MissingThreadName)
    ));
    let no_time = JsonLine {
        value: obj(vec![("id", s("x")), ("thread_name", s("n"))]),
        text: String::new(),
    };
    assert!(matches!(
        merge_session_index(&vec![no_time], &vec![]),
        Err(MergeError::MissingUpdatedAt)
    ));
    let bad_time = name("x", "n", "yesterday");
    assert!(matches!(
        merge_session_index(&vec![bad_time], &vec![]),
        Err(MergeError::InvalidTimestamp)
    ));
}

#[test]
fn equal_floats_of_both_signs_do_not_conflict() {
    let zero = |bits: u64| JsonLine {
        value: obj(vec![
            ("id", s("x")),
            ("thread_name", s("n")),
            ("updated_at", s("2026-01-01T00:00:00Z")),
            ("weight", Json::Float(bits)),
        ]),
        text: String::new(),
    };
    let positive = zero(0.0f64.to_bits());
    let negative = zero((-0.0f64).to_bits());
    assert!(merge_session_index(&vec![positive], &vec![negative]).is_ok());
    let one = zero(1.0f64.to_bits());
    let two = zero(2.0f64.to_bits());
    assert!(merge_session_index(&vec![one], &vec![two]).is_err());
}

#[test]
fn rollout_choice_goes_by_the_records() {
    let local = b"stored local";
    let incoming = b"stored incoming";
    // Incoming records extend the local ones: the incoming bytes are kept.
    assert_eq!(
        choose_rollout(local, incoming, b"{\"a\":1}\n", b"{\"a\":1}\n{\"b\":2}\n").unwrap(),
        incoming.to_vec()
    );
    // Local records extend the incoming ones, or both are equal: the local bytes stay.
    assert_eq!(
        choose_rollout(local, incoming, b"{\"a\":1}\n{\"b\":2}\n", b"{\"a\":1}\n").unwrap(),
        local.to_vec()
    );
    assert_eq!(
        choose_rollout(local, incoming, b"{\"a\":1}\n", b"{\"a\":1}\n").unwrap(),
        local.to_vec()
    );
    assert!(matches!(
        choose_rollout(local, incoming, b"{\"a\":1}", b"{\"a\":1}\n"),
        Err(MergeError::DivergentRollout)
    ));
    assert!(matches!(
        choose_rollout(local, incoming, b"{\"a\":1}\n", b"{\"b\":1}\n"),
        Err(MergeError::DivergentRollout)
    ));
}

#[test]
fn index_merge_goes_by_the_given_instants() {
    let local = vec![name("a", "old", "whenever")];
    let incoming = vec![name("a", "new", "whenever")];
    // The instants given, not the texts, decide which name is the latest.
    let merged = merge_index_parsed(&local, &incoming, &vec![Some((100, 0)), Some((100, 1))]).unwrap();
    assert_eq!(merged, format!("{}\n", incoming[0].text));
    let merged = merge_index_parsed(&local, &incoming, &vec![Some((101, 0)), Some((100, 999))]).unwrap();
    assert_eq!(merged, format!("{}\n", local[0].text));
    match merge_index_parsed(&local, &incoming, &vec![Some((5, 5)), Some((5, 5))]) {
        Err(MergeError::ConflictingNames(id)) => assert_eq!(id, "a"),
        other => panic!("{:?}", other),
    }
    assert!(matches!(
        merge_index_parsed(&local, &incoming, &vec![Some((5, 5)), None]),
        Err(MergeError::InvalidTimestamp)
    ));
    // The parsed texts order as their instants do.
    let local = vec![name("a", "old", "2026-01-01T10:00:00+09:00")];
    let incoming = vec![name("a", "new", "2026-01-01T01:00:00.5Z")];
    assert_eq!(
        merge_session_index(&local, &incoming).unwrap(),
        format!("{}\n", incoming[0].text)
    );
}

#[test]
fn framed_lines_read_back_unchanged() {
    let lines = vec![
        "{\"a\":1}".to_string(),
        "x y".to_string(),
        "\u{3000}z".to_string(),
    ];
    let mut text = String::new();
    for l in &lines {
        text.push_str(l);
        text.push('\n');
    }
    assert_eq!(split_lines(text.as_bytes()).unwrap(), lines);
    // A line that ends in a carriage return loses it on the way back.
    assert_eq!(split_lines(b"a\r\n").unwrap(), vec!["a"]);
}
