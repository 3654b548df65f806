use miyu::state::conversation_db::open::{
    check_report, corruption_report, is_database_corrupt, maintain_once, reclaim_free_pages,
    remember, shares, BackupStep, OpenAction, OpenRole, Opening, Reclaim, CODE_CORRUPT,
    CODE_NOT_A_DATABASE,
};
use miyu::state::migrations::named::{
    named_pending, record_named, run_named_migrations, NAMED_MIGRATIONS,
};
use miyu::state::migrations::{
    add_column_if_missing, migrations, Migration, MigrationError, MigrationRun, RunEvent,
    RunPhase, LATEST_VERSION,
};
use miyu::text_map::TextMap;

/// Runs to the end, with references that lead nowhere counted by `count`.
fn run(mut run: MigrationRun, mut count: impl FnMut(RunPhase) -> u64) -> MigrationRun {
    while run.phase != RunPhase::Finished {
        let event = match run.phase {
            RunPhase::CountBefore | RunPhase::CountAfter => RunEvent::Counted(count(run.phase)),
            _ => RunEvent::Done,
        };
        run.advance(event);
    }
    run
}

#[test]
fn fresh_database_migrates_to_latest_version() {
    let list = migrations();
    let done = run(MigrationRun::start(0, &list).unwrap(), |_| 0);
    assert!(done.failure.is_none());
    assert_eq!(done.version, list.last().unwrap().version);
    assert_eq!(done.version, LATEST_VERSION);
    assert_eq!(done.done, list.len());
}

#[test]
fn migrations_are_idempotent_on_reopen() {
    let list = migrations();
    let again = MigrationRun::start(LATEST_VERSION, &list).unwrap();
    assert_eq!(again.phase, RunPhase::Finished);
    assert!(again.pending.is_empty());
    assert_eq!(again.version, list.last().unwrap().version);
}

#[test]
fn pre_existing_violations_do_not_block_unrelated_migrations() {
    let list = migrations();
    let done = run(MigrationRun::start(25, &list).unwrap(), |_| 3);
    assert!(done.failure.is_none(), "历史脏数据把升级路径堵死了");
    assert_eq!(done.version, list.last().unwrap().version);
}

#[test]
fn a_migration_that_breaks_referential_integrity_still_rolls_back() {
    let latest = migrations().last().unwrap().version;
    let bad = vec![Migration {
        version: latest + 1,
        name: "deliberately_broken",
    }];
    let mut rolled_back = false;
    let mut broken = MigrationRun::start(latest, &bad).unwrap();
    while broken.phase != RunPhase::Finished {
        rolled_back |= broken.phase == RunPhase::RollBack;
        let event = match broken.phase {
            RunPhase::CountBefore => RunEvent::Counted(0),
            RunPhase::CountAfter => RunEvent::Counted(1),
            _ => RunEvent::Done,
        };
        broken.advance(event);
    }
    let error = broken.failure.expect("迁移把引用完整性搞坏了却提交了");
    assert!(
        error.message().contains("introduced"),
        "报错要说清是这个迁移新增的：{error:?}"
    );
    assert_eq!(
        error.message(),
        "schema migration 'deliberately_broken' introduced 1 foreign-key violations (before 0, after 1); rolling back"
    );
    assert!(rolled_back);
    assert_eq!(broken.version, latest);
}

#[test]
fn newer_database_version_is_refused() {
    let err = MigrationRun::start(9999, &migrations()).unwrap_err();
    assert!(err.message().contains("newer"));
    assert_eq!(
        err,
        MigrationError::Newer {
            current: 9999,
            latest: LATEST_VERSION
        }
    );
}

#[test]
fn an_interrupted_run_resumes_where_it_was() {
    let list = migrations();
    let mut first = MigrationRun::start(30, &list).unwrap();
    while first.version < 33 {
        let event = match first.phase {
            RunPhase::CountBefore | RunPhase::CountAfter => RunEvent::Counted(0),
            _ => RunEvent::Done,
        };
        first.advance(event);
    }
    let second = MigrationRun::start(first.version, &list).unwrap();
    assert_eq!(second.pending[0].version, 34);
    assert_eq!(second.pending[0].name, "accounts");
}

#[test]
fn failures_are_named_and_enforcement_comes_back() {
    let list = migrations();
    let fail_at = |phase: RunPhase| {
        let mut run = MigrationRun::start(39, &list).unwrap();
        let mut restored = false;
        while run.phase != RunPhase::Finished {
            restored |= run.phase == RunPhase::Restore;
            let event = if run.phase == phase {
                RunEvent::Failed("disk full".to_string())
            } else {
                match run.phase {
                    RunPhase::CountBefore | RunPhase::CountAfter => RunEvent::Counted(0),
                    _ => RunEvent::Done,
                }
            };
            run.advance(event);
        }
        let committed = run.version == LATEST_VERSION;
        (
            run.failure.map(|failure| failure.message()).unwrap_or_default(),
            restored,
            committed,
        )
    };
    assert_eq!(
        fail_at(RunPhase::Release),
        ("disk full".to_string(), false, false)
    );
    assert_eq!(
        fail_at(RunPhase::Begin),
        (
            "failed to begin migration 'sandbox_toggle'".to_string(),
            true,
            false
        )
    );
    assert_eq!(
        fail_at(RunPhase::Apply),
        (
            "schema migration 'sandbox_toggle' failed".to_string(),
            true,
            false
        )
    );
    assert_eq!(
        fail_at(RunPhase::Commit),
        (
            "failed to commit migration 'sandbox_toggle'".to_string(),
            true,
            false
        )
    );
    assert_eq!(
        fail_at(RunPhase::CountAfter),
        ("disk full".to_string(), true, false)
    );
    assert_eq!(
        fail_at(RunPhase::Restore),
        ("disk full".to_string(), true, true)
    );
}

#[test]
fn columns_are_added_once() {
    let columns = vec!["id".to_string(), "name".to_string()];
    assert_eq!(add_column_if_missing(&columns, "turns", "name", "TEXT"), None);
    assert_eq!(
        add_column_if_missing(&columns, "turns", "model", "TEXT").as_deref(),
        Some("ALTER TABLE turns ADD COLUMN model TEXT")
    );
}

#[test]
fn named_migrations_leave_the_schema_version_alone() {
    let list = migrations();
    let done = run(MigrationRun::start(0, &list).unwrap(), |_| 0);
    let mut ledger = Vec::new();
    assert_eq!(run_named_migrations(&mut ledger), NAMED_MIGRATIONS);
    assert_eq!(done.version, LATEST_VERSION);
    assert_eq!(ledger, NAMED_MIGRATIONS);
}

#[test]
fn rerunning_is_a_no_op_and_unknown_ids_are_left_alone() {
    let mut ledger = Vec::new();
    run_named_migrations(&mut ledger);
    ledger.push("2099-01-01-from-a-newer-build".to_string());
    assert!(run_named_migrations(&mut ledger).is_empty());
    assert_eq!(ledger.len(), NAMED_MIGRATIONS.len() + 1);
}

#[test]
fn a_migration_that_someone_else_ran_is_not_run_again() {
    let mut ledger = vec![NAMED_MIGRATIONS[1].to_string()];
    assert_eq!(
        named_pending(&ledger),
        [NAMED_MIGRATIONS[0], NAMED_MIGRATIONS[2]]
    );
    assert!(record_named(&mut ledger, NAMED_MIGRATIONS[0]));
    assert!(!record_named(&mut ledger, NAMED_MIGRATIONS[0]));
    assert_eq!(ledger.len(), 2);
}

/// Everything that is done to open a database.
fn open(role: OpenRole, version: i64, check: &str, turns: bool) -> Vec<OpenAction> {
    let mut opening = Opening::new(role, version);
    let mut done = Vec::new();
    loop {
        let action = opening.next();
        done.push(action);
        match action {
            OpenAction::Check => opening.checked(check.to_string()),
            OpenAction::AskForTurns => opening.asked_for_turns(turns),
            OpenAction::BackUp | OpenAction::ReportNoBackUp => opening.backup_tried(),
            OpenAction::Migrate => opening.was_migrated(),
            OpenAction::Reclaim => opening.was_reclaimed(),
            OpenAction::Finish => return done,
        }
    }
}

#[test]
fn opening_a_legacy_database_reclaims_free_pages() {
    assert_eq!(
        open(OpenRole::Maintain, 0, "ok", false),
        [
            OpenAction::Check,
            OpenAction::AskForTurns,
            OpenAction::Migrate,
            OpenAction::Reclaim,
            OpenAction::Finish
        ]
    );
    assert_eq!(reclaim_free_pages(Some(0), Some(2_000)), Reclaim::Rewrite);
}

#[test]
fn the_conversion_does_not_repeat() {
    assert_eq!(reclaim_free_pages(Some(0), Some(0)), Reclaim::Rewrite);
    assert_eq!(reclaim_free_pages(Some(2), Some(0)), Reclaim::Nothing);
    assert_eq!(reclaim_free_pages(Some(2), Some(63)), Reclaim::Nothing);
    assert_eq!(reclaim_free_pages(Some(2), Some(64)), Reclaim::Part);
    assert_eq!(reclaim_free_pages(Some(2), None), Reclaim::Nothing);
    assert_eq!(reclaim_free_pages(None, None), Reclaim::Rewrite);
}

#[test]
fn a_corrupt_database_reports_the_file_and_what_to_do() {
    assert!(is_database_corrupt(&vec![None, Some(CODE_CORRUPT)]));
    assert!(is_database_corrupt(&vec![Some(CODE_NOT_A_DATABASE)]));
    assert!(!is_database_corrupt(&vec![None, Some(5)]));
    let rendered = corruption_report("/x/conversation.db", None);
    assert!(rendered.contains("会话数据库已损坏"), "{rendered}");
    assert!(rendered.contains("/x/conversation.db"), "{rendered}");
    assert!(rendered.contains("conversation.db-wal"), "{rendered}");
    assert!(!rendered.contains("备份"), "{rendered}");
    let with = corruption_report("/x/conversation.db", Some("/x/conversation.db.bak"));
    assert!(with.contains("可用的迁移前备份：/x/conversation.db.bak"), "{with}");
}

#[test]
fn a_failed_backup_never_destroys_the_existing_one() {
    let mut step = BackupStep::ClearStaging;
    let mut steps = vec![step];
    while step != BackupStep::Finished {
        step = step.after(step != BackupStep::Export);
        steps.push(step);
    }
    assert_eq!(
        steps,
        [
            BackupStep::ClearStaging,
            BackupStep::Export,
            BackupStep::DropStaging,
            BackupStep::Finished
        ]
    );
    assert_eq!(BackupStep::Export.after(true), BackupStep::Promote);
}

#[test]
fn a_backup_comes_before_the_migration_of_a_database_in_order() {
    assert_eq!(
        open(OpenRole::Client, 12, "ok", true),
        [
            OpenAction::Check,
            OpenAction::AskForTurns,
            OpenAction::BackUp,
            OpenAction::Migrate,
            OpenAction::Reclaim,
            OpenAction::Finish
        ]
    );
    assert_eq!(
        open(OpenRole::Maintain, 12, "row 3 missing", true),
        [
            OpenAction::Check,
            OpenAction::AskForTurns,
            OpenAction::ReportNoBackUp,
            OpenAction::Migrate,
            OpenAction::Finish
        ]
    );
}

#[test]
fn a_client_open_leaves_maintenance_to_the_daemon() {
    assert_eq!(
        open(OpenRole::Client, LATEST_VERSION, "ok", true),
        [OpenAction::Migrate, OpenAction::Finish]
    );
    assert_eq!(
        open(OpenRole::Maintain, LATEST_VERSION, "ok", true),
        [
            OpenAction::Check,
            OpenAction::Migrate,
            OpenAction::Reclaim,
            OpenAction::Finish
        ]
    );
    let mut maintained = Opening::new(OpenRole::Client, LATEST_VERSION).maintained();
    assert!(!maintain_once(&mut maintained, OpenRole::Client));
    assert!(maintain_once(&mut maintained, OpenRole::Maintain));
    assert!(!maintain_once(&mut maintained, OpenRole::Maintain));
}

#[test]
fn one_process_shares_one_connection_per_database_file() {
    let mut open = TextMap::new();
    let path = "/x/conversation.db";
    assert!(!shares(&open, path, Some((1, 2))));
    remember(&mut open, path.to_string(), Some((1, 2)));
    assert!(shares(&open, path, Some((1, 2))));
    assert!(!shares(&open, "/y/conversation.db", Some((1, 2))));
}

#[test]
fn a_replaced_database_file_gets_a_fresh_connection() {
    let mut open = TextMap::new();
    let path = "/x/conversation.db";
    remember(&mut open, path.to_string(), Some((1, 2)));
    assert!(!shares(&open, path, Some((1, 3))));
    assert!(!shares(&open, path, None));
    remember(&mut open, path.to_string(), Some((1, 3)));
    assert!(shares(&open, path, Some((1, 3))));
    remember(&mut open, "/z".to_string(), None);
    assert!(!shares(&open, "/z", None));
}

#[test]
fn connections_that_nobody_uses_are_forgotten() {
    let mut open = TextMap::new();
    remember(&mut open, "/a".to_string(), Some((1, 1)));
    open.entries[0].1.alive = false;
    assert!(!shares(&open, "/a", Some((1, 1))));
    remember(&mut open, "/b".to_string(), Some((1, 2)));
    assert_eq!(open.entries.len(), 1);
}

#[test]
fn a_check_that_failed_says_so() {
    assert_eq!(check_report(Ok("ok".to_string())), "ok");
    assert_eq!(
        check_report(Err("locked".to_string())),
        "quick_check failed: locked"
    );
}

#[test]
fn without_migrations_the_latest_version_is_none() {
    let none: Vec<Migration> = Vec::new();
    let settled = MigrationRun::start(0, &none).unwrap();
    assert_eq!(settled.phase, RunPhase::Finished);
    assert_eq!(
        MigrationRun::start(1, &none).unwrap_err(),
        MigrationError::Newer {
            current: 1,
            latest: 0
        }
    );
    // A version below it has nothing to run, and references are enforced again.
    let mut below = MigrationRun::start(-1, &none).unwrap();
    assert_eq!(below.phase, RunPhase::Release);
    below.advance(RunEvent::Done);
    assert_eq!(below.phase, RunPhase::Restore);
    below.advance(RunEvent::Done);
    assert_eq!(below.phase, RunPhase::Finished);
    assert!(below.failure.is_none());
    assert_eq!(
        MigrationError::Newer {
            current: -1,
            latest: -2
        }
        .message(),
        "conversation.db schema version -1 is newer than this build supports (-2); refusing to open"
    );
}
