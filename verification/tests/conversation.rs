use miyu::llm::cache_break::{CacheBreak, CacheBreakCause};
use miyu::state::conversation_db::audit::{
    audit_id, platform_access_audit, PlatformAccessActor, PlatformAccessGrantKey,
};
use miyu::state::conversation_db::checks::{turn_chars, FollowupTexts, TurnTexts};
use miyu::state::conversation_db::journal::{NewEvent, ToolFootprint};
use miyu::state::conversation_db::pages::{ReplayPage, TurnPage, TurnReplay};
use miyu::state::conversation_db::rows::{
    AssetRow, BackupRow, Checkpoint, CheckpointRow, DbError, LoadedItem, LoadedItemRow,
    PromptRow, PromptStatus, QuestionRow, ReplayEntry, ReplayRow, SegmentStatus, SessionKind,
    SessionRow, Stamp, TurnRedoBackup, TurnRow, TurnStatus, TurnTokens,
};
use miyu::state::conversation_db::skill_catalog::SkillCatalogSnapshot;
use miyu::state::conversation_db::turns::{Answer, NewTurn};
use miyu::state::conversation_db::ConversationDb;

const DEAD_PID: u32 = 999_999;
const LIVE_PID: u32 = 4_242;
const SESSION: &str = "sess_1";

fn now() -> Stamp {
    Stamp {
        text: "2026-09-24T12:00:00+00:00".to_string(),
        secs: 1_790_251_200,
    }
}

fn session(id: &str, kind: SessionKind, parent: Option<&str>) -> SessionRow {
    SessionRow {
        session_id: id.to_string(),
        kind,
        parent_session_id: parent.map(str::to_string),
        updated_at: now().secs,
        last_request_at: None,
    }
}

fn db() -> ConversationDb {
    let mut db = ConversationDb::new();
    db.sessions.push(session(SESSION, SessionKind::User, None));
    db
}

fn start(db: &mut ConversationDb, turn_id: &str, content: &str, pid: u32) {
    db.start_turn(
        NewTurn {
            turn_id: turn_id.to_string(),
            session_id: SESSION.to_string(),
            user_content: content.to_string(),
            display_content: content.to_string(),
            placeholder: "…".to_string(),
            owner_pid: pid,
            queue_session_id: "queue".to_string(),
            workspace: None,
        },
        None,
        &now(),
    )
    .unwrap();
}

fn event(kind: &str, text: &str) -> NewEvent {
    NewEvent {
        kind: kind.to_string(),
        call_id: None,
        name: None,
        text_payload: Some(text.to_string()),
        blob_payload: None,
        ok: None,
    }
}

fn turn<'a>(db: &'a ConversationDb, turn_id: &str) -> &'a TurnRow {
    db.turns
        .iter()
        .find(|turn| turn.turn_id == turn_id)
        .expect("turn exists")
}

/// What the journal of a turn says.
fn said(db: &ConversationDb, turn_id: &String) -> Option<Vec<ReplayEntry>> {
    Some(
        db.events
            .iter()
            .filter(|event| event.turn_id == *turn_id && event.kind == "assistant_content")
            .filter_map(|event| event.text_payload.clone())
            .map(ReplayEntry::Text)
            .collect(),
    )
}

fn recover(db: &mut ConversationDb) -> usize {
    db.recover_stale_running_turns(&vec![LIVE_PID], |_, _| None, &now())
        .unwrap()
        .len()
}

#[test]
fn a_turn_whose_process_died_leaves_a_resume_claim() {
    let mut db = db();
    start(&mut db, "turn_dead", "build the thing", DEAD_PID);
    db.append_turn_journal_event(
        "turn_dead",
        0,
        0,
        event("assistant_content", "working on it"),
        &now(),
    )
    .unwrap();

    assert_eq!(recover(&mut db), 1);

    let orphans = db.pending_restart_orphans();
    assert_eq!(orphans.len(), 1, "{orphans:?}");
    let orphan = &orphans[0];
    assert_eq!(orphan.turn_id, "turn_dead");
    assert_eq!(orphan.session_id, SESSION);
    assert_eq!(orphan.user_content, "build the thing");
    let last_activity = orphan.last_activity.expect("last activity recorded");
    assert_eq!(last_activity.secs, now().secs);

    assert_eq!(turn(&db, "turn_dead").status, TurnStatus::Interrupted);
}

#[test]
fn a_turn_the_user_stopped_leaves_no_claim() {
    let mut db = db();
    start(&mut db, "turn_stopped", "stop me", LIVE_PID);
    db.interrupt_turn_with_usage("turn_stopped", TurnTokens::none(), None, &now())
        .unwrap();
    assert_eq!(recover(&mut db), 0);
    assert!(db.pending_restart_orphans().is_empty());
}

#[test]
fn a_closed_claim_is_not_offered_again() {
    let mut db = db();
    start(&mut db, "turn_dead", "task", DEAD_PID);
    recover(&mut db);
    assert_eq!(db.pending_restart_orphans().len(), 1);

    db.close_restart_orphan("turn_dead", "resumed", "run_x", &now());
    assert!(db.pending_restart_orphans().is_empty());
    db.close_restart_orphan("turn_dead", "skipped", "again", &now());
    db.close_restart_orphan("turn_missing", "skipped", "gone", &now());
    assert!(db.pending_restart_orphans().is_empty());
}

#[test]
fn an_orphan_from_days_ago_is_still_offered() {
    let mut db = db();
    start(&mut db, "turn_dead", "task", DEAD_PID);
    recover(&mut db);
    for turn in &mut db.turns {
        turn.user_timestamp = "2026-09-21T12:00:00+00:00".to_string();
        turn.assistant_timestamp = Some("2026-09-21T12:00:00+00:00".to_string());
    }
    let orphans = db.pending_restart_orphans();
    assert_eq!(orphans.len(), 1, "{orphans:?}");
}

#[test]
fn an_orphan_without_journal_events_falls_back_to_the_turn_start() {
    let mut db = db();
    start(&mut db, "turn_dead", "task", DEAD_PID);
    recover(&mut db);
    let orphans = db.pending_restart_orphans();
    assert!(orphans[0].last_activity.is_some(), "{orphans:?}");
}

#[test]
fn a_suspended_turn_stays_running_and_keeps_its_usage() {
    let mut db = db();
    start(&mut db, "turn_live", "long task", DEAD_PID);
    let tokens = TurnTokens {
        total: 1_200,
        prompt: 1_000,
        cache_read: 800,
    };
    db.suspend_turn_with_usage("turn_live", tokens);
    let suspended = turn(&db, "turn_live");
    assert_eq!(suspended.status, TurnStatus::Running);
    assert_eq!(suspended.token_total, 1_200);
    assert_eq!(suspended.token_prompt, 1_000);
    assert_eq!(suspended.token_cache_read, 800);

    recover(&mut db);
    let recovered = turn(&db, "turn_live");
    assert_eq!(recovered.status, TurnStatus::Interrupted);
    assert_eq!(recovered.token_total, 1_200, "recovery must keep the usage");
    assert_eq!(db.pending_restart_orphans().len(), 1);
}

#[test]
fn has_turn_after_sees_later_turns_of_the_same_session() {
    let mut db = db();
    start(&mut db, "turn_1", "first", DEAD_PID);
    recover(&mut db);
    let seq = db.pending_restart_orphans()[0].seq;
    assert!(!db.has_turn_after(SESSION, seq));
    start(&mut db, "turn_2", "second", LIVE_PID);
    assert!(db.has_turn_after(SESSION, seq));
}

#[test]
fn the_claim_stays_out_of_the_replay_snapshot() {
    let mut db = db();
    start(&mut db, "turn_dead", "task", DEAD_PID);
    db.append_turn_journal_event(
        "turn_dead",
        0,
        0,
        event("assistant_content", "partial answer"),
        &now(),
    )
    .unwrap();
    // What is gathered is all there is in the journal when it is gathered.
    let gather = |db: &ConversationDb, turn_id: &String| {
        Some(
            db.events
                .iter()
                .filter(|event| event.turn_id == *turn_id)
                .map(|event| {
                    let text = event.text_payload.clone().unwrap_or_default();
                    ReplayEntry::Text(format!("{}: {}", event.kind, text))
                })
                .collect::<Vec<_>>(),
        )
    };
    db.recover_stale_running_turns(&vec![LIVE_PID], gather, &now())
        .unwrap();
    assert!(db
        .events
        .iter()
        .any(|event| event.kind == "restart_orphaned"));
    let replay = db.session_replay(SESSION, 10, &Vec::new());
    let entries = format!("{:?}", replay[0].entries);
    assert!(!entries.contains("restart_orphaned"), "{entries}");
    assert!(entries.contains("partial answer"), "{entries}");
    assert!(
        replay[0].assistant_content.contains("partial answer"),
        "{}",
        replay[0].assistant_content
    );
}

#[test]
fn a_recovery_takes_only_the_numbers_it_needs() {
    // The session has the highest number there is, and nothing overtook the
    // turn: it is closed where it stands.
    let mut db = db();
    start(&mut db, "turn_dead", "task", DEAD_PID);
    db.turns[0].seq = i64::MAX;
    assert_eq!(recover(&mut db), 1);
    assert_eq!(turn(&db, "turn_dead").seq, i64::MAX);
    assert_eq!(turn(&db, "turn_dead").status, TurnStatus::Interrupted);

    // Another session has it.
    let mut db = two_turns();
    start(&mut db, "turn_far", "elsewhere", LIVE_PID);
    db.sessions.push(session("other", SessionKind::User, None));
    let far = db.turns.iter().position(|row| row.turn_id == "turn_far").unwrap();
    db.turns[far].session_id = "other".to_string();
    db.turns[far].seq = i64::MAX;
    let late = turn(&db, "turn_late").seq;
    assert_eq!(recover(&mut db), 1);
    assert_eq!(turn(&db, "turn_dead").status, TurnStatus::Interrupted);
    assert_eq!(turn(&db, "turn_dead").seq, late + 1);
}

/// A turn that ended, and a turn before it whose process is gone.
fn two_turns() -> ConversationDb {
    let mut db = db();
    start(&mut db, "turn_dead", "task", DEAD_PID);
    start(&mut db, "turn_late", "more", LIVE_PID);
    complete(&mut db, "turn_late", "done");
    db
}

#[test]
fn a_recovery_without_a_number_changes_nothing() {
    let mut db = two_turns();
    assert_eq!(turn(&db, "turn_late").status, TurnStatus::Completed);
    let last = db.turns.iter().position(|row| row.turn_id == "turn_late").unwrap();
    db.turns[last].seq = i64::MAX;
    let before = format!("{db:?}");
    assert_eq!(
        db.recover_stale_running_turns(&vec![LIVE_PID], said, &now())
            .map(|found| found.len()),
        Err(DbError::SequenceFull)
    );
    assert_eq!(format!("{db:?}"), before);

    // One number less, and the turn goes to the end of its session.
    db.turns[last].seq = i64::MAX - 1;
    assert_eq!(recover(&mut db), 1);
    assert_eq!(turn(&db, "turn_dead").seq, i64::MAX);
}

#[test]
fn a_recovery_closes_each_turn_once_and_leaves_the_others() {
    let mut db = two_turns();
    start(&mut db, "turn_dead_2", "again", DEAD_PID);
    start(&mut db, "turn_live", "still here", LIVE_PID);
    let late = format!("{:?}", turn(&db, "turn_late"));
    let live = format!("{:?}", turn(&db, "turn_live"));
    let found = db
        .recover_stale_running_turns(&vec![LIVE_PID], said, &now())
        .unwrap();
    let ids: Vec<&str> = found.iter().map(|row| row.turn_id.as_str()).collect();
    assert_eq!(ids, ["turn_dead", "turn_dead_2"]);
    assert!(found.iter().all(|row| !row.restored_redo));
    assert_eq!(format!("{:?}", turn(&db, "turn_late")), late);
    assert_eq!(format!("{:?}", turn(&db, "turn_live")), live);
    let pending: Vec<String> = db
        .pending_restart_orphans()
        .into_iter()
        .map(|orphan| orphan.turn_id)
        .collect();
    assert_eq!(pending.len(), 2);
    assert!(pending.contains(&"turn_dead".to_string()));
    assert!(pending.contains(&"turn_dead_2".to_string()));
    assert_eq!(recover(&mut db), 0);
}

fn entry(session: &str, lost: u64, cause: CacheBreakCause) -> CacheBreak {
    CacheBreak {
        session_id: session.into(),
        turn_id: None,
        lost_tokens: lost,
        cause,
        idle_secs: 0,
    }
}

#[test]
fn breaks_are_counted_over_the_session_tree_newest_first() {
    let mut db = ConversationDb::new();
    db.sessions.push(session("root", SessionKind::User, None));
    db.sessions
        .push(session("child", SessionKind::Subagent, Some("root")));
    db.sessions.push(session("other", SessionKind::User, None));
    db.record_cache_break(&entry("root", 13_000, CacheBreakCause::Provider), &now())
        .unwrap();
    db.record_cache_break(
        &entry(
            "child",
            237_000,
            CacheBreakCause::Tools {
                changes: "+send_qq_message".into(),
            },
        ),
        &now(),
    )
    .unwrap();
    db.record_cache_break(
        &entry("other", 5_000, CacheBreakCause::SystemPrompt),
        &now(),
    )
    .unwrap();

    assert_eq!(db.cache_break_count("root"), 2, "子代理的算进主会话");
    assert_eq!(db.cache_break_count("child"), 1);
    let recent = db.recent_cache_breaks("root", 10);
    assert_eq!(recent.len(), 2);
    assert_eq!(recent[0].lost_tokens, 237_000, "新的在前");
    assert!(matches!(recent[0].cause, CacheBreakCause::Tools { .. }));
    assert_eq!(recent[1].cause, CacheBreakCause::Provider);

    db.delete_session(&"root".to_string());
    assert_eq!(db.cache_break_count("root"), 0, "删会话连记录一起走");
    assert_eq!(db.cache_break_count("other"), 1);
}

#[test]
fn a_break_of_an_unknown_session_is_turned_down() {
    let mut db = db();
    assert!(matches!(
        db.record_cache_break(&entry("gone", 1, CacheBreakCause::Provider), &now()),
        Err(DbError::UnknownSession)
    ));
}

fn complete(db: &mut ConversationDb, turn_id: &str, content: &str) {
    db.complete_turn(turn_id, content.to_string(), None, None, &now())
        .unwrap();
}

fn completed_turns(db: &mut ConversationDb, count: usize) {
    for index in 1..=count {
        let turn_id = format!("t{index}");
        start(db, &turn_id, &format!("q{index}"), LIVE_PID);
        db.set_turn_context_messages(&turn_id, "[\"<runtime/>\"]".to_string());
        complete(db, &turn_id, &format!("a{index}"));
    }
}

#[test]
fn a_turn_page_walks_back_from_the_newest_turn() {
    let mut db = db();
    completed_turns(&mut db, 5);
    assert_ne!(db.turns[0].context_messages, "[]", "测具没存上化石");

    let newest = db.load_turn_page(SESSION, None, 2).unwrap();
    let ids = |page: &TurnPage| {
        page.turns
            .iter()
            .map(|turn| turn.turn_id.clone())
            .collect::<Vec<_>>()
    };
    assert_eq!(ids(&newest), ["t4", "t5"]);
    assert!(newest
        .turns
        .iter()
        .all(|turn| turn.context_messages == "[]"));
    assert_eq!(newest.turns[1].assistant_content, "a5");

    let middle = db.load_turn_page(SESSION, newest.older, 2).unwrap();
    assert_eq!(ids(&middle), ["t2", "t3"]);
    let oldest = db.load_turn_page(SESSION, middle.older, 2).unwrap();
    assert_eq!(ids(&oldest), ["t1"]);
    assert_eq!(oldest.older, None);
}

#[test]
fn a_replay_page_walks_back_the_same_way() {
    let mut db = db();
    completed_turns(&mut db, 5);
    let none: Vec<ReplayRow> = Vec::new();
    let replies = |page: &ReplayPage| {
        page.turns
            .iter()
            .map(|turn| turn.assistant_content.clone())
            .collect::<Vec<_>>()
    };

    let newest = db.session_replay_page(SESSION, None, 2, &none);
    assert_eq!(replies(&newest), ["a4", "a5"]);
    let recent = db.session_replay(SESSION, 2, &none);
    assert_eq!(
        recent
            .iter()
            .map(|turn| turn.assistant_content.clone())
            .collect::<Vec<_>>(),
        ["a4", "a5"]
    );
    let middle = db.session_replay_page(SESSION, newest.older, 2, &none);
    assert_eq!(replies(&middle), ["a2", "a3"]);
    let oldest = db.session_replay_page(SESSION, middle.older, 2, &none);
    assert_eq!(replies(&oldest), ["a1"]);
    assert_eq!(oldest.older, None);
    assert!(db
        .session_replay_page(SESSION, None, 5, &none)
        .older
        .is_none());
}

fn prompt(id: &str, seq: i64, turn_id: Option<&str>, content: &str) -> PromptRow {
    PromptRow {
        prompt_id: id.to_string(),
        seq,
        session_id: SESSION.to_string(),
        queue_session_id: Some("queue".to_string()),
        owner_pid: None,
        status: if turn_id.is_some() {
            PromptStatus::Consumed
        } else {
            PromptStatus::Queued
        },
        content: content.to_string(),
        display_content: content.to_string(),
        context_content: None,
        preceding_assistant_content: None,
        preceding_assistant_reasoning: None,
        turn_id: turn_id.map(str::to_string),
        consumed_at: None,
    }
}

#[test]
fn user_inputs_match_the_user_entries_of_the_conversation() {
    let mut db = db();
    completed_turns(&mut db, 2);
    start(&mut db, "t3", "q3", LIVE_PID);
    db.prompts.push(prompt("p1", 1, Some("t3"), "追加一句"));
    complete(&mut db, "t3", "a3");

    let expected = ["q1", "q2", "q3", "追加一句"];
    assert_eq!(db.user_inputs(SESSION), expected);
    assert_eq!(db.first_user_content(SESSION).as_deref(), Some("q1"));
}

fn long_reply() -> String {
    let body: String = (0..300)
        .map(|index| format!("长回复第{index:04}行\n"))
        .collect();
    body + "长回复到此结束"
}

fn last_text(replay: &TurnReplay) -> &str {
    match replay.entries.last() {
        Some(ReplayEntry::Text(text)) => text,
        other => panic!("最后一条不是正文：{other:?}"),
    }
}

fn with_snapshot(answer: &str, text: &str) -> Vec<TurnReplay> {
    let mut db = db();
    start(&mut db, "t1", "写长一点", DEAD_PID);
    complete(&mut db, "t1", answer);
    db.replays.clear();
    db.replays.push(ReplayRow {
        turn_id: "t1".to_string(),
        entries: vec![ReplayEntry::Text(text.to_string())],
    });
    db.session_replay(SESSION, 5, &Vec::new())
}

#[test]
fn a_long_reply_replays_whole() {
    let mut db = db();
    start(&mut db, "t1", "写长一点", DEAD_PID);
    let reply = long_reply();
    assert!(reply.chars().count() > 3000);
    db.complete_turn(
        "t1",
        reply.clone(),
        None,
        Some(vec![ReplayEntry::Text(reply.clone())]),
        &now(),
    )
    .unwrap();

    let replays = db.session_replay(SESSION, 5, &Vec::new());
    assert_eq!(last_text(&replays[0]), reply);
}

#[test]
fn an_old_clipped_snapshot_heals_from_the_reply() {
    let reply = long_reply();
    let clipped: String = reply.chars().take(2048).collect::<String>() + "…";
    let replays = with_snapshot(&reply, &clipped);
    assert_eq!(last_text(&replays[0]), reply);
}

#[test]
fn only_the_old_clamp_is_healed() {
    let replays = with_snapshot("话说到一半…后面还有", "话说到一半…");
    assert_eq!(last_text(&replays[0]), "话说到一半…");

    let other: String = "中间正文"
        .repeat(600)
        .chars()
        .take(2048)
        .collect::<String>()
        + "…";
    let replays = with_snapshot("话说到一半…后面还有", &other);
    assert_eq!(last_text(&replays[0]), other);
}

#[test]
fn a_turn_is_started_once_and_only_in_a_session() {
    let mut db = db();
    start(&mut db, "t1", "q", LIVE_PID);
    let again = |session: &str, turn: &str| NewTurn {
        turn_id: turn.to_string(),
        session_id: session.to_string(),
        user_content: "q".to_string(),
        display_content: "q".to_string(),
        placeholder: "…".to_string(),
        owner_pid: LIVE_PID,
        queue_session_id: "queue".to_string(),
        workspace: None,
    };
    assert!(matches!(
        db.start_turn(again(SESSION, "t1"), None, &now()),
        Err(DbError::DuplicateTurn)
    ));
    assert!(matches!(
        db.start_turn(again("gone", "t2"), None, &now()),
        Err(DbError::UnknownSession)
    ));
    assert_eq!(db.turns.len(), 1);
    assert_eq!(turn(&db, "t1").assistant_content, "…");
    assert!(db.has_running_turns(SESSION));
    assert_eq!(db.turn_session_id("t1").as_deref(), Some(SESSION));
    assert_eq!(db.turn_started_at("t1"), Some(now().text));
}

#[test]
fn a_revision_that_changed_is_not_completed() {
    let mut db = db();
    start(&mut db, "t1", "q", LIVE_PID);
    let answer = || Answer {
        content: "a".to_string(),
        reasoning: None,
        provider_id: Some("p".to_string()),
        model: Some("m".to_string()),
        tokens: TurnTokens {
            total: 5,
            prompt: 3,
            cache_read: 1,
        },
        estimated: false,
    };
    assert!(matches!(
        db.complete_turn_revision_with_usage("t1", 7, answer(), None, &now()),
        Err(DbError::RedoChanged)
    ));
    assert_eq!(turn(&db, "t1").status, TurnStatus::Running);
    db.complete_turn_with_usage("t1", answer(), None, &now())
        .unwrap();
    assert_eq!(turn(&db, "t1").status, TurnStatus::Completed);
    assert_eq!(turn(&db, "t1").token_total, 5);
    assert!(matches!(
        db.complete_turn("missing", "a".to_string(), None, None, &now()),
        Err(DbError::TurnChanged)
    ));
}

#[test]
fn the_tokens_before_a_page_are_counted() {
    let mut db = db();
    for n in 1..=3 {
        let id = format!("t{n}");
        start(&mut db, &id, "q", LIVE_PID);
        db.complete_turn_with_usage(
            &id,
            Answer {
                content: "a".to_string(),
                reasoning: None,
                provider_id: None,
                model: None,
                tokens: TurnTokens {
                    total: 10 * n,
                    prompt: n,
                    cache_read: 0,
                },
                estimated: false,
            },
            None,
            &now(),
        )
        .unwrap();
    }
    let page = db.load_turn_page(SESSION, None, 1).unwrap();
    assert_eq!(
        page.tokens_before,
        TurnTokens {
            total: 30,
            prompt: 3,
            cache_read: 0
        }
    );
}

#[test]
fn events_that_are_too_long_or_too_late_are_turned_down() {
    let mut db = db();
    start(&mut db, "t1", "q", LIVE_PID);
    let long = NewEvent {
        blob_payload: Some(vec![0; 8 * 1024 * 1024 + 1]),
        ..event("tool_result", "x")
    };
    assert!(matches!(
        db.append_turn_journal_event("t1", 0, 0, long, &now()),
        Err(DbError::BlobEventTooLong)
    ));
    assert!(matches!(
        db.append_turn_journal_event("t1", 1, 0, event("assistant_content", "x"), &now()),
        Err(DbError::JournalInactive)
    ));
    db.append_turn_journal_event("t1", 0, 0, event("assistant_content", "x"), &now())
        .unwrap();
    assert_eq!(db.segments[0].status, SegmentStatus::Running);
    db.supersede_turn_journal_segment(&"t1".to_string(), 0, 0, &now())
        .unwrap();
    assert_eq!(db.segments[0].status, SegmentStatus::Superseded);
    assert!(matches!(
        db.supersede_turn_journal_segment(&"t1".to_string(), 0, 9, &now()),
        Err(DbError::SegmentChanged)
    ));
}

#[test]
fn footprints_are_merged_once() {
    let mut db = db();
    start(&mut db, "t1", "q", LIVE_PID);
    let delta = ToolFootprint {
        items: vec![
            ("read".to_string(), "a.rs".to_string()),
            ("read".to_string(), "b.rs".to_string()),
        ],
    };
    db.merge_turn_footprint("t1", &delta);
    db.merge_turn_footprint("t1", &delta);
    assert_eq!(db.footprints.len(), 2);
    let merged = db.load_merged_footprint(SESSION, &vec!["t1".to_string()]);
    assert_eq!(merged.items, delta.items);
}

#[test]
fn questions_are_numbered() {
    let mut db = db();
    start(&mut db, "t1", "q", LIVE_PID);
    db.append_question_exchange(&"t1".to_string(), "one".to_string())
        .unwrap();
    db.append_question_exchange(&"t1".to_string(), "two".to_string())
        .unwrap();
    let indices: Vec<i64> = db.questions.iter().map(|row| row.exchange_index).collect();
    assert_eq!(indices, [0, 1]);
}

#[test]
fn what_belongs_to_no_turn_is_turned_down() {
    let mut db = db();
    let nowhere = "nowhere".to_string();
    assert_eq!(
        db.append_question_exchange(&nowhere, "one".to_string()),
        Err(DbError::UnknownTurn)
    );
    assert_eq!(
        db.append_tool_reports(&nowhere, &vec!["one".to_string()]),
        Err(DbError::UnknownTurn)
    );
    assert_eq!(db.append_tool_reports(&nowhere, &vec![]), Ok(()));
    assert!(db.questions.is_empty() && db.tool_reports.is_empty());
    start(&mut db, "t1", "q", LIVE_PID);
    let reports = vec!["one".to_string(), "two".to_string()];
    assert_eq!(db.append_tool_reports(&"t1".to_string(), &reports), Ok(()));
    let kept: Vec<&str> = db.tool_reports.iter().map(|row| row.report.as_str()).collect();
    assert_eq!(kept, ["one", "two"]);
}

#[test]
fn what_a_stale_turn_showed_is_kept() {
    let mut db = db();
    start(&mut db, "turn_dead", "build the thing", DEAD_PID);
    db.append_turn_journal_event(
        "turn_dead",
        0,
        0,
        event("assistant_content", "half an answer"),
        &now(),
    )
    .unwrap();
    let recoveries = db
        .recover_stale_running_turns(&vec![LIVE_PID], said, &now())
        .unwrap();
    assert_eq!(recoveries.len(), 1);
    assert_eq!(db.replays.len(), 1);
    assert_eq!(db.replays[0].turn_id, "turn_dead");
    assert!(matches!(
        &db.replays[0].entries[..],
        [ReplayEntry::Text(text)] if text == "half an answer"
    ));
}

#[test]
fn a_redo_that_was_cut_off_puts_the_turn_back() {
    let mut db = db();
    start(&mut db, "t1", "q", LIVE_PID);
    complete(&mut db, "t1", "first answer");
    let row = db.turns.iter_mut().find(|row| row.turn_id == "t1").unwrap();
    row.revision = 1;
    row.status = TurnStatus::Running;
    row.assistant_content = "half".to_string();
    db.backups.push(BackupRow {
        turn_id: "t1".to_string(),
        revision: 1,
        backup: TurnRedoBackup {
            user_content: "q".to_string(),
            display_content: "q".to_string(),
            assistant_content: "first answer".to_string(),
            assistant_reasoning: None,
            assistant_provider_id: None,
            assistant_model: None,
            assistant_timestamp: None,
            status: TurnStatus::Completed,
            tool_reports: "[]".to_string(),
            owner_pid: None,
            queue_session_id: None,
            token_total: 3,
            token_prompt: 2,
            token_cache_read: 1,
            token_usage_estimated: false,
            loaded_items: Vec::new(),
            consumed_prompt_ids: Vec::new(),
            checkpoint: None,
            followup_content: None,
            followup_display_content: None,
            followup_context_content: None,
        },
    });
    db.question_backups.push(QuestionRow {
        turn_id: "t1".to_string(),
        exchange_index: 0,
        payload: "asked".to_string(),
    });
    db.image_backups.push(AssetRow {
        turn_id: "t1".to_string(),
        record: "image".to_string(),
    });
    assert_eq!(db.restore_redo_backup("t1", 1).unwrap(), true);
    assert_eq!(turn(&db, "t1").assistant_content, "first answer");
    assert_eq!(turn(&db, "t1").status, TurnStatus::Completed);
    assert_eq!(db.questions.len(), 1);
    assert_eq!(db.images.len(), 1);
    assert!(db.backups.is_empty());
    assert_eq!(db.restore_redo_backup("t1", 1).unwrap(), false);
}

#[test]
fn a_checkpoint_of_another_version_is_not_available() {
    let mut db = db();
    db.checkpoints.push(CheckpointRow {
        turn_id: "t1".to_string(),
        checkpoint: Checkpoint {
            version: 2,
            batch_prompt_ids: "[\"p1\",\"p2\"]".to_string(),
            payload: Some(vec![1, 2]),
            unavailable_reason: None,
            created_at: now().text,
        },
    });
    let loaded = db.load_redo_checkpoint("t1", 2).unwrap();
    assert_eq!(loaded.batch_prompt_ids, ["p1", "p2"]);
    assert_eq!(loaded.payload, Some(vec![1, 2]));
    assert_eq!(loaded.unavailable_reason, None);
    let old = db.load_redo_checkpoint("t1", 3).unwrap();
    assert_eq!(old.payload, None);
    assert!(old.unavailable_reason.unwrap().contains('2'));
    assert!(db.load_redo_checkpoint("t2", 2).is_none());
}

#[test]
fn loaded_tools_that_changed_are_noticed() {
    let mut db = db();
    db.loaded_items.push(LoadedItemRow {
        session_id: SESSION.to_string(),
        item: LoadedItem {
            kind: "tool".to_string(),
            name: "grep".to_string(),
            source_turn_id: Some("t1".to_string()),
            created_at: now().text,
            updated_at: now().text,
        },
    });
    let same = vec![("grep".to_string(), Some("t1".to_string()))];
    assert!(db.verify_loaded_tool_sources(SESSION, Some(&same)).is_ok());
    assert!(db.verify_loaded_tool_sources(SESSION, None).is_ok());
    let other = vec![("grep".to_string(), None)];
    assert!(matches!(
        db.verify_loaded_tool_sources(SESSION, Some(&other)),
        Err(DbError::LoadedToolsChanged)
    ));
}

#[test]
fn loaded_tools_are_compared_by_name() {
    let mut db = db();
    for (kind, name, turn) in [
        ("tool", "read", "t1"),
        ("skill", "cook", "t1"),
        ("tool", "grep", "t2"),
        ("tool", "read", "t3"),
    ] {
        db.loaded_items.push(LoadedItemRow {
            session_id: SESSION.to_string(),
            item: LoadedItem {
                kind: kind.to_string(),
                name: name.to_string(),
                source_turn_id: Some(turn.to_string()),
                created_at: now().text,
                updated_at: now().text,
            },
        });
    }
    let tools = |names: [(&str, &str); 3]| {
        names
            .iter()
            .map(|(name, turn)| (name.to_string(), Some(turn.to_string())))
            .collect::<Vec<_>>()
    };
    let sorted = tools([("grep", "t2"), ("read", "t1"), ("read", "t3")]);
    assert_eq!(db.verify_loaded_tool_sources(SESSION, Some(&sorted)), Ok(()));
    let unsorted = tools([("read", "t1"), ("grep", "t2"), ("read", "t3")]);
    assert_eq!(
        db.verify_loaded_tool_sources(SESSION, Some(&unsorted)),
        Err(DbError::LoadedToolsChanged)
    );
}

#[test]
fn the_characters_of_a_turn_are_counted() {
    let texts = TurnTexts {
        user_content: "四个汉字".to_string(),
        assistant_content: "ab".to_string(),
        assistant_reasoning: Some("c".to_string()),
        tool_reports: vec!["de".to_string()],
        question_exchanges: vec!["fgh".to_string()],
        followups: vec![FollowupTexts {
            content: "ij".to_string(),
            preceding_assistant_content: Some("k".to_string()),
            preceding_assistant_reasoning: None,
        }],
    };
    assert_eq!(turn_chars(&texts), 15);
}

#[test]
fn visible_turns_are_deleted_together_or_not_at_all() {
    let mut db = db();
    completed_turns(&mut db, 3);
    assert!(matches!(
        db.delete_visible_turns(SESSION, &vec!["t1".to_string(), "gone".to_string()]),
        Err(DbError::ConversationChanged)
    ));
    assert_eq!(db.turns.len(), 3);
    db.delete_visible_turns(SESSION, &vec!["t1".to_string(), "t2".to_string()])
        .unwrap();
    assert_eq!(db.turns.len(), 1);
    assert_eq!(db.turns[0].turn_id, "t3");
}

#[test]
fn idle_sessions_go_away() {
    let mut db = db();
    let mut old = session("sub", SessionKind::Subagent, Some(SESSION));
    old.updated_at = now().secs - 8 * 86_400;
    db.sessions.push(old);
    let mut fresh = session("sub2", SessionKind::Subagent, Some(SESSION));
    fresh.updated_at = now().secs - 6 * 86_400;
    db.sessions.push(fresh);
    let mut asked = session("ask", SessionKind::Ask, None);
    asked.updated_at = now().secs - 7_200;
    db.sessions.push(asked);
    assert_eq!(
        db.delete_subagent_sessions_older_than(7, &now()),
        ["sub"]
    );
    assert_eq!(db.delete_ask_sessions_older_than(1, &now()), ["ask"]);
    let left: Vec<&str> = db
        .sessions
        .iter()
        .map(|row| row.session_id.as_str())
        .collect();
    assert_eq!(left, [SESSION, "sub2"]);
}

#[test]
fn reports_are_held_until_they_are_released() {
    let mut db = db();
    let hold = |db: &mut ConversationDb, content: &str| {
        db.hold_job_report(
            &SESSION.to_string(),
            &"batch".to_string(),
            &"job".to_string(),
            &None,
            &content.to_string(),
        )
    };
    hold(&mut db, "one").unwrap();
    hold(&mut db, "two").unwrap();
    assert_eq!(db.sessions_with_held_job_reports(), [SESSION]);
    let held = db.held_job_reports(SESSION);
    assert_eq!(held.len(), 2);
    assert_eq!(db.release_held_job_reports(&vec![held[0].id, 99]), 1);
    assert_eq!(db.held_job_reports(SESSION)[0].content, "two");
}

#[test]
fn a_catalogue_of_skills_is_kept_for_a_session() {
    let mut db = db();
    let snapshot = SkillCatalogSnapshot {
        epoch: "1".to_string(),
        description: "skills".to_string(),
    };
    db.set_skill_catalog_snapshot(&SESSION.to_string(), snapshot);
    assert_eq!(
        db.skill_catalog_snapshot(SESSION).unwrap().description,
        "skills"
    );
    db.forget_skill_catalog_snapshot(SESSION);
    assert!(db.skill_catalog_snapshot(SESSION).is_none());
    db.set_skill_catalog_snapshot(
        &"gone".to_string(),
        SkillCatalogSnapshot {
            epoch: "1".to_string(),
            description: "skills".to_string(),
        },
    );
    db.prune_orphan_snapshots();
    assert!(db.skill_catalogs.is_empty());
}

#[test]
fn the_context_is_measured_from_the_last_turn() {
    let mut db = db();
    completed_turns(&mut db, 2);
    assert_eq!(db.latest_context_end_tokens(SESSION), None);
    db.set_turn_context_end("t2", Some(1_000));
    assert_eq!(db.latest_context_end_tokens(SESSION), Some(1_000));
    db.set_turn_generation("t2", 50, 1_000);
    assert_eq!(
        db.load_turn_generation(SESSION),
        [("t2".to_string(), (50, 1_000))]
    );
    let (anchor, seq) = db.load_last_measured_anchor(SESSION).unwrap();
    assert_eq!((anchor.turn_id.as_str(), anchor.tokens), ("t2", 1_000));
    assert_eq!(seq, db.latest_turn_seq(SESSION));
    assert_eq!(db.load_context_anchor(SESSION).unwrap().tokens, 1_000);
}

#[test]
fn queued_messages_of_a_dead_turn_become_part_of_it() {
    let mut db = db();
    start(&mut db, "t1", "q", DEAD_PID);
    db.prompts.push(prompt("p1", 1, None, "and this"));
    assert_eq!(recover(&mut db), 1);
    assert_eq!(db.prompts[0].status, PromptStatus::Consumed);
    assert_eq!(db.prompts[0].turn_id.as_deref(), Some("t1"));
}

#[test]
fn running_turns_are_summed_up() {
    let mut db = db();
    start(&mut db, "t1", "first", LIVE_PID);
    start(&mut db, "t2", "second", LIVE_PID);
    assert_eq!(db.running_turn_summaries(SESSION).len(), 2);
    assert_eq!(db.running_turn_summaries_excluding(SESSION, "t1").len(), 1);
    let (turn, queue, pid) = db.running_turn_queue_target(SESSION).unwrap();
    assert_eq!(turn, "t2");
    assert_eq!(queue.as_deref(), Some("queue"));
    assert_eq!(pid, Some(LIVE_PID));
}

#[test]
fn an_audit_has_an_id_of_its_own() {
    assert_eq!(
        audit_id(0x0123_4567_89ab_cdef_0011_2233_4455_6677),
        audit_id(0x0123_4567_89ab_cdef_0011_2233_4455_6677)
    );
    assert_ne!(audit_id(1), audit_id(2));
    assert_eq!(audit_id(1), format!("access-audit-{}1", "0".repeat(31)));
    let key = || PlatformAccessGrantKey {
        platform: "qq".to_string(),
        account_scope: "1".to_string(),
        permission: "chat".to_string(),
        subject_kind: "user".to_string(),
        subject_id: "2".to_string(),
    };
    let actor = || PlatformAccessActor {
        platform: "qq".to_string(),
        account_id: "1".to_string(),
        user_id: "3".to_string(),
        conversation_kind: "group".to_string(),
        conversation_id: "4".to_string(),
        message_id: "5".to_string(),
    };
    let one = platform_access_audit("grant", key(), actor(), &now().text);
    let two = platform_access_audit("grant", key(), actor(), &now().text);
    assert_ne!(one.audit_id, two.audit_id);
    assert_eq!(one.operation, "grant");
}

#[test]
fn a_running_turn_is_replayed_from_its_journal() {
    let mut db = db();
    db.sessions.push(session("child", SessionKind::Subagent, Some(SESSION)));
    start(&mut db, "t1", "hello", LIVE_PID);
    let replay = db
        .running_turn_replay("t1", vec![ReplayEntry::Text("so far".to_string())])
        .unwrap();
    assert_eq!(replay.seq, 1);
    assert_eq!(replay.display_content, "hello");
    assert_eq!(replay.assistant_content, "");
    assert!(matches!(&replay.entries[..], [ReplayEntry::Text(text)] if text == "so far"));
    assert!(!replay.is_synthetic && !replay.from_parent && !replay.interrupted);
    assert_eq!(replay.started_at, Some(now().text));
    assert!(replay.finished_at.is_none() && replay.job_report.is_none());
    assert!(db.running_turn_replay("nowhere", vec![]).is_none());
}

fn start_in(db: &mut ConversationDb, session_id: &str, turn_id: &str, content: &str) {
    db.start_turn(
        NewTurn {
            turn_id: turn_id.to_string(),
            session_id: session_id.to_string(),
            user_content: content.to_string(),
            display_content: content.to_string(),
            placeholder: "…".to_string(),
            owner_pid: LIVE_PID,
            queue_session_id: "queue".to_string(),
            workspace: None,
        },
        None,
        &now(),
    )
    .unwrap();
}

#[test]
fn only_the_first_turn_of_a_subagent_comes_from_its_parent() {
    let mut db = db();
    db.sessions.push(session("child", SessionKind::Subagent, Some(SESSION)));
    start_in(&mut db, "child", "task", "look it up");
    start_in(&mut db, "child", "more", "and then");
    start(&mut db, "own", "hello", LIVE_PID);
    assert!(db.turn_from_parent("task"));
    assert!(!db.turn_from_parent("more"));
    assert!(!db.turn_from_parent("own"));
    assert!(!db.turn_from_parent("nowhere"));
}

#[test]
fn a_turn_that_no_report_woke_has_none() {
    let mut db = db();
    start(&mut db, "t1", "hello", LIVE_PID);
    assert_eq!(db.turn_job_report("t1"), None);
    assert_eq!(db.turn_job_report("nowhere"), None);
}

#[test]
fn an_interrupted_turn_keeps_what_it_said() {
    let mut db = db();
    start(&mut db, "t1", "q", LIVE_PID);
    db.append_turn_journal_event("t1", 0, 0, event("assistant_content", "half"), &now())
        .unwrap();
    db.set_turn_tool_flow("t1", "[1]".to_string());
    db.interrupt_turn("t1", None, &now()).unwrap();
    let row = turn(&db, "t1");
    assert_eq!(row.status, TurnStatus::Interrupted);
    assert_eq!(row.assistant_content, "half\n\n已中断");
    assert_eq!(row.tool_flow.as_deref(), Some("[1]"));
    assert!(db.segments.iter().all(|row| row.status == SegmentStatus::Interrupted));
    // 已经收尾的一轮再打断,什么也不动。
    db.interrupt_turn("t1", None, &now()).unwrap();
    assert_eq!(turn(&db, "t1").assistant_content, "half\n\n已中断");
}

#[test]
fn interrupting_a_redo_without_a_backup_closes_it() {
    let mut db = db();
    start(&mut db, "t1", "q", LIVE_PID);
    assert_eq!(db.interrupt_turn_revision("t1", 0, None, &now()), Ok(false));
    assert_eq!(turn(&db, "t1").status, TurnStatus::Interrupted);
    assert_eq!(turn(&db, "t1").assistant_content, "已中断");
}
