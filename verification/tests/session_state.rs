use miyu::digest::hex_digest;
use miyu::state::conversation_db::rows::{DbError, SessionKind, SessionRow, Stamp};
use miyu::state::conversation_db::session_state::{LegacyKind, SessionValueKind};
use miyu::state::session_state::{
    legacy_file, safe_path_segment, session_files, REPL_HISTORY_KEEP, SESSION_DIRS,
};
use miyu::state::store::StateStore;

fn now() -> Stamp {
    Stamp {
        text: "2026-09-24T12:00:00+00:00".to_string(),
        secs: 1_790_251_200,
    }
}

fn store(sessions: &[&str]) -> StateStore {
    let mut store = StateStore::new("");
    for session in sessions {
        store.conv_db.sessions.push(SessionRow {
            session_id: session.to_string(),
            kind: SessionKind::User,
            parent_session_id: None,
            updated_at: now().secs,
            last_request_at: None,
        });
    }
    store
}

#[test]
fn a_session_value_round_trips_and_goes_away_with_its_session() {
    let mut store = store(&["doomed"]);
    let doomed = "doomed".to_string();
    store
        .set_session_value(
            &doomed,
            SessionValueKind::Todos,
            "[\"write tests\"]",
            None,
            &now(),
        )
        .unwrap();
    assert_eq!(
        store
            .session_value(&doomed, SessionValueKind::Todos, None, &now())
            .as_deref(),
        Some("[\"write tests\"]")
    );

    store.conv_db.delete_session(&doomed);

    assert_eq!(
        store
            .conv_db
            .session_value(&doomed, SessionValueKind::Todos),
        None
    );
}

#[test]
fn a_legacy_file_is_imported_once_before_the_first_write() {
    let mut store = store(&["s"]);
    let session = "s".to_string();
    let file = Some("[\"old\"]");
    assert_eq!(
        store
            .session_value(&session, SessionValueKind::Todos, file, &now())
            .as_deref(),
        Some("[\"old\"]")
    );
    store
        .set_session_value(&session, SessionValueKind::Todos, "[\"new\"]", file, &now())
        .unwrap();
    assert_eq!(
        store
            .session_value(&session, SessionValueKind::Todos, file, &now())
            .as_deref(),
        Some("[\"new\"]")
    );
}

#[test]
fn repl_history_keeps_legacy_lines_first_and_only_the_newest() {
    let mut store = store(&["s"]);
    let session = "s".to_string();
    let file = Some("\"one\"\n\"two\"\n\n");

    store
        .append_repl_history(&session, "\"three\"", file, &now())
        .unwrap();
    assert_eq!(
        store.repl_history(&session, file, &now()),
        ["\"one\"", "\"two\"", "\"three\""]
    );

    for index in 0..REPL_HISTORY_KEEP {
        store
            .append_repl_history(&session, &format!("\"n{index}\""), file, &now())
            .unwrap();
    }
    let history = store.repl_history(&session, file, &now());
    assert_eq!(history.len(), REPL_HISTORY_KEEP);
    assert_eq!(history.first().unwrap(), "\"n0\"");
    assert_eq!(
        history.last().unwrap(),
        &format!("\"n{}\"", REPL_HISTORY_KEEP - 1)
    );
}

#[test]
fn clearing_a_value_removes_the_legacy_file_for_good() {
    let mut store = store(&["s"]);
    let session = "s".to_string();
    let file = store
        .clear_session_value(&session, SessionValueKind::ThinkingPins, &now())
        .expect("the old file is named");
    assert_eq!(file.dir, "session-thinking-variants");
    assert_eq!(file.name, "s.json");

    assert_eq!(
        store.session_value(
            &session,
            SessionValueKind::ThinkingPins,
            Some("{\"selected\":{}}"),
            &now()
        ),
        None
    );
}

#[test]
fn a_member_thinking_pin_comes_from_the_member_home() {
    let file = legacy_file("s", LegacyKind::Value(SessionValueKind::ThinkingPins)).unwrap();
    assert!(file.at_home);
    assert_eq!(
        (file.dir, file.name.as_str()),
        ("session-thinking-variants", "s.json")
    );
    let mut store = store(&["s"]);
    assert_eq!(
        store
            .session_value(
                &"s".to_string(),
                SessionValueKind::ThinkingPins,
                Some("{\"selected\":{\"p\\tm\":\"high\"}}"),
                &now()
            )
            .as_deref(),
        Some("{\"selected\":{\"p\\tm\":\"high\"}}")
    );
}

#[test]
fn deleting_a_session_removes_its_files_outside_the_database() {
    let out = session_files("doomed");
    let names: Vec<(&str, &str)> = out
        .files
        .iter()
        .map(|file| (file.dir, file.name.as_str()))
        .collect();
    assert!(names.contains(&("todos", "doomed.json")), "{names:?}");
    assert!(
        names.contains(&("repl-history", "doomed.jsonl")),
        "{names:?}"
    );
    assert!(out.dirs);
    assert!(SESSION_DIRS.contains(&"spill") && SESSION_DIRS.contains(&"compact"));
    assert!(!session_files("../up").dirs);
}

#[test]
fn values_can_be_updated_and_updates_can_fail() {
    let mut store = store(&["s"]);
    let session = "s".to_string();
    store
        .update_session_value(
            &session,
            SessionValueKind::Todos,
            |before| Ok(format!("{}+1", before.unwrap_or_default())),
            Some("0"),
            &now(),
        )
        .unwrap();
    let failed = store.update_session_value(
        &session,
        SessionValueKind::Todos,
        |_| Err(DbError::TurnChanged),
        None,
        &now(),
    );
    assert!(matches!(failed, Err(DbError::TurnChanged)));
    assert_eq!(
        store
            .session_value(&session, SessionValueKind::Todos, None, &now())
            .as_deref(),
        Some("0+1")
    );
}

#[test]
fn values_belong_to_a_session_that_is_there() {
    let mut store = store(&[]);
    assert!(matches!(
        store.set_session_value(
            &"gone".to_string(),
            SessionValueKind::Todos,
            "[]",
            None,
            &now()
        ),
        Err(DbError::UnknownSession)
    ));
    assert!(matches!(
        store.append_repl_history(&"gone".to_string(), "x", None, &now()),
        Err(DbError::UnknownSession)
    ));
}

#[test]
fn segments_of_paths_are_safe() {
    assert_eq!(safe_path_segment("sess_1-a"), "sess_1-a");
    assert!(!safe_path_segment("a/b").contains('/'));
    assert_eq!(safe_path_segment("a b/ü.txt"), "a_b__.txt");
    assert!(safe_path_segment(&"x".repeat(100)).len() <= 48);
}

#[test]
fn a_fingerprint_is_filed_under_the_digest_of_its_session() {
    let file = legacy_file("s", LegacyKind::Value(SessionValueKind::PromptFingerprint)).unwrap();
    let digest = blake3::hash(b"s").to_hex().to_string();
    assert_eq!(file.name, format!("{digest}.sha256"));
    assert_eq!(hex_digest("s"), digest);
    assert_eq!(
        hex_digest("日本"),
        blake3::hash("日本".as_bytes()).to_hex().to_string()
    );
}
