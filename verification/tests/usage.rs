use miyu::state::store::StateStore;
use miyu::state::usage::db::{complete_lines, HistoryLine, HistoryStep, UsageDb};
use miyu::state::usage::stats::{
    aggregate, aggregate_on, calendar_of, shown_starts, Book, Calendar, UsageRange,
};
use miyu::state::usage::{
    Usage, UsageMeta, UsageRecord, UsageState, USAGE_KIND_AFFECTION, USAGE_KIND_GROUP_JOIN,
    USAGE_KIND_JUDGE,
};

fn tokens(prompt: u64, completion: u64, total: u64) -> Usage {
    Usage {
        prompt_tokens: prompt,
        completion_tokens: completion,
        total_tokens: total,
        ..Usage::new()
    }
}

fn meta<'a>(source: &'a str, provider: &'a str, model: &'a str) -> UsageMeta<'a> {
    UsageMeta {
        source,
        provider: Some(provider),
        model: Some(model),
        kind: None,
    }
}

fn unpriced(db: &UsageDb, account: Option<&str>) -> Vec<bool> {
    vec![false; db.records(account).len()]
}

/// Per million tokens: what was not read from the cache, what was, what was
/// written.
fn cost(record: &UsageRecord) -> f64 {
    let million = 1_000_000.0;
    (record.prompt - record.cache_read) as f64 / million
        + record.cache_read as f64 / million * 0.1
        + record.completion as f64 / million * 2.0
}

#[test]
fn usage_stats_estimates_cost_with_resolver() {
    let mut db = UsageDb::new();
    let usage = Usage {
        cache_read_tokens: 1_000_000,
        ..tokens(2_000_000, 1_000_000, 3_000_000)
    };
    db.record(&usage, meta("agent", "priced", "m"), false, "");
    db.record(&usage, meta("agent", "unknown", "m"), false, "");
    let records = db.records(None);
    let priced: Vec<bool> = records
        .iter()
        .map(|record| record.provider == "priced")
        .collect();
    let stats = db.stats(UsageRange::All, &priced, None);
    assert_eq!(stats.totals.requests, 2);
    assert_eq!(stats.totals.costed_requests, 1);
    let total: f64 = stats.totals.costed.iter().map(|at| cost(&records[*at])).sum();
    assert!((total - 3.1).abs() < 1e-9, "{total}");
    let day_cost: f64 = stats
        .daily
        .iter()
        .flat_map(|day| day.costed.iter())
        .map(|at| cost(&records[*at]))
        .sum();
    assert!((day_cost - 3.1).abs() < 1e-9);
    let details = db.details(10, None, None, None);
    assert_eq!(
        details
            .iter()
            .filter(|record| record.provider == "priced")
            .count(),
        1
    );
}

#[test]
fn records_and_clears_last_usage() {
    let mut ledger = UsageDb::new();

    ledger.add(&tokens(10, 5, 15), true);
    let usage_snapshot = ledger.snapshot();
    assert_eq!(usage_snapshot.last_usage.unwrap().total_tokens, 15);
    assert_eq!(
        usage_snapshot
            .last_conversation_usage
            .unwrap()
            .prompt_tokens,
        10
    );

    ledger.clear_last_usage();
    let usage_snapshot = ledger.snapshot();
    assert_eq!(usage_snapshot.total_tokens, 15);
    assert!(usage_snapshot.last_usage.is_none());
    assert!(usage_snapshot.last_conversation_usage.is_none());
}

#[test]
fn auxiliary_usage_does_not_replace_conversation_usage() {
    let mut ledger = UsageDb::new();

    ledger.add(&tokens(100, 20, 120), true);
    ledger.add(&tokens(5, 2, 7), false);

    let snapshot = ledger.snapshot();
    assert_eq!(snapshot.total_tokens, 127);
    assert_eq!(snapshot.last_usage.unwrap().prompt_tokens, 5);
    assert_eq!(snapshot.last_conversation_usage.unwrap().prompt_tokens, 100);
}

#[test]
fn total_tokens_falls_back_to_prompt_plus_completion() {
    let mut ledger = UsageDb::new();

    ledger.add(&tokens(7, 3, 0), true);

    let snapshot = ledger.snapshot();
    assert_eq!(snapshot.total_tokens, 10);
    assert_eq!(snapshot.conversation_tokens, 10);
}

#[test]
fn usage_history_records_and_aggregates_by_source() {
    let mut ledger = UsageDb::new();
    let now = chrono::Utc::now().timestamp();
    let usage = |prompt: u64, completion: u64, cache: u64| Usage {
        cache_read_tokens: cache,
        ..tokens(prompt, completion, prompt + completion)
    };

    ledger.record_at(
        &usage(100, 20, 60),
        meta("agent", "prov", "m-a"),
        false,
        "",
        now,
    );
    ledger.record_at(
        &usage(50, 10, 0),
        meta("qq", "prov", "m-b"),
        false,
        "",
        now - 3_600,
    );
    ledger.record_at(
        &usage(30, 5, 10),
        meta("qq", "prov", "m-b"),
        true,
        "",
        now - 40 * 86_400,
    );

    let all = ledger.stats(UsageRange::All, &unpriced(&ledger, None), None);
    assert_eq!(all.totals.requests, 3);
    assert_eq!(all.totals.prompt, 180);
    assert_eq!(all.totals.cache_read, 70);
    assert!(all.prev_totals.is_none());
    assert_eq!(all.daily.len(), 364);
    assert_eq!(all.sources.len(), 2);
    assert_eq!(all.sources[0].src, "agent");
    assert_eq!(all.sources[1].src, "qq");
    assert_eq!(all.sources[1].aggregate.requests, 2);
    assert_eq!(all.sources[1].models[0].model, "m-b");

    let week = ledger.stats(UsageRange::Days(7), &unpriced(&ledger, None), None);
    assert_eq!(week.totals.requests, 2);
    assert!(week.prev_totals.is_some());

    let details = ledger.details(2, None, None, None);
    assert_eq!(details.len(), 2);
    assert_eq!(details[0].model, "m-a");
    assert!(!details[0].aux);

    let only_qq = ledger.details(10, Some("qq"), None, None);
    assert_eq!(only_qq.len(), 2);
    assert!(only_qq.iter().all(|record| record.src == "qq"));
    let only_model = ledger.details(10, None, Some("m-b"), None);
    assert_eq!(only_model.len(), 2);
}

#[test]
fn reset_conversation_preserves_global_total() {
    let mut ledger = UsageDb::new();
    ledger.add(&tokens(7, 3, 10), true);

    ledger.reset_conversation();
    let snapshot = ledger.snapshot();
    assert_eq!(snapshot.total_tokens, 10);
    assert_eq!(snapshot.conversation_tokens, 0);
    assert!(snapshot.last_conversation_usage.is_none());
}

#[test]
fn rename_provider_rewrites_matching_rows_only() {
    let mut ledger = UsageDb::new();
    for provider in ["old", "old", "other"] {
        ledger.record(&tokens(10, 5, 15), meta("agent", provider, "m"), false, "");
    }

    assert_eq!(ledger.rename_provider("old", "new"), 2);

    let records = ledger.records(None);
    let providers: Vec<&str> = records.iter().map(|item| item.provider.as_str()).collect();
    assert_eq!(providers, ["new", "new", "other"]);
    assert!(records.iter().all(|item| item.total == 15));
}

#[test]
fn rename_provider_without_matches_changes_nothing() {
    let mut ledger = UsageDb::new();
    ledger.record(&tokens(10, 5, 15), meta("agent", "other", "m"), false, "");

    assert_eq!(ledger.rename_provider("missing", "new"), 0);
    assert_eq!(ledger.rename_provider("other", "other"), 0);
    assert_eq!(ledger.rename_provider("", "new"), 0);
    assert_eq!(ledger.records(None)[0].provider, "other");
}

fn history_line(ts: i64, provider: &str) -> String {
    format!(
        r#"{{"ts":{ts},"provider":"{provider}","model":"m","prompt":10,"completion":2,"total":12}}"#
    )
}

/// A line of the old file, read as a call.
fn read_line(line: &[u8]) -> Option<UsageRecord> {
    let value: serde_json::Value = serde_json::from_slice(line).ok()?;
    let text = |key: &str| value[key].as_str().unwrap_or("").to_string();
    let number = |key: &str| value[key].as_u64().unwrap_or(0);
    Some(UsageRecord {
        ts: value["ts"].as_i64()?,
        src: text("src"),
        provider: text("provider"),
        model: text("model"),
        prompt: number("prompt"),
        completion: number("completion"),
        total: number("total"),
        cache_read: number("cache_read"),
        cache_write: number("cache_write"),
        aux: false,
        kind: text("kind"),
        acct: text("acct"),
    })
}

fn import(ledger: &mut UsageDb, file: &str) {
    let HistoryStep::Read(offset) = ledger.plan_history(file.len() as u64) else {
        return;
    };
    let lines = complete_lines(&file.as_bytes()[offset as usize..].to_vec())
        .iter()
        .map(|line| HistoryLine {
            bytes: line.len() as u64,
            record: read_line(line),
        })
        .collect();
    ledger.import_history(lines);
}

fn totals(requests: u64) -> UsageState {
    UsageState {
        requests,
        prompt_tokens: 20,
        completion_tokens: 10,
        total_tokens: 30,
        conversation_tokens: 30,
        cache_read_tokens: 0,
        cache_write_tokens: 0,
        reasoning_tokens: 0,
        last_usage: None,
        last_conversation_usage: None,
    }
}

#[test]
fn old_ledger_files_are_imported_and_kept() {
    let now = chrono::Utc::now().timestamp();
    let file = format!(
        "{}\nnot-json\n{}\n{{\"ts\":{now},\"prov",
        history_line(now, "a"),
        history_line(now, "b")
    );
    let mut ledger = UsageDb::new();
    ledger.import_totals(Some(totals(3)));
    import(&mut ledger, &file);

    let snapshot = ledger.snapshot();
    assert_eq!(snapshot.requests, 3);
    assert_eq!(snapshot.total_tokens, 30);
    let records = ledger.records(None);
    assert_eq!(records.len(), 2, "坏行跳过,没写完的那行不导");
    let stats = ledger.stats(UsageRange::All, &unpriced(&ledger, None), None);
    assert_eq!(stats.sources[0].src, "agent");
}

#[test]
fn lines_appended_by_an_older_build_are_picked_up_on_the_next_open() {
    let now = chrono::Utc::now().timestamp();
    let mut file = format!("{}\n", history_line(now, "a"));
    let totals = |requests: u64| UsageState {
        requests,
        ..UsageState::new()
    };
    let mut ledger = UsageDb::new();
    ledger.import_totals(Some(totals(3)));
    import(&mut ledger, &file);
    ledger.add(&tokens(1, 1, 2), true);
    assert_eq!(ledger.records(None).len(), 1);

    file.push_str(&format!("{}\n", history_line(now, "b")));
    ledger.import_totals(Some(totals(99)));
    import(&mut ledger, &file);

    let providers: Vec<String> = ledger
        .records(None)
        .into_iter()
        .map(|record| record.provider)
        .collect();
    assert_eq!(providers, ["a", "b"]);
    assert_eq!(ledger.snapshot().requests, 4, "累计只导一次");
}

#[test]
fn clearing_the_history_removes_the_old_file_too() {
    let now = chrono::Utc::now().timestamp();
    let file = format!("{}\n", history_line(now, "a"));
    let mut ledger = UsageDb::new();
    import(&mut ledger, &file);
    ledger.add(&tokens(1, 1, 2), true);

    ledger.clear_history();

    assert!(ledger.records(None).is_empty());
    assert!(matches!(ledger.plan_history(0), HistoryStep::Nothing));
    assert_eq!(ledger.snapshot().total_tokens, 2);
}

#[test]
fn an_old_file_that_shrank_is_gone_on_with_from_its_end() {
    let mut ledger = UsageDb::new();
    ledger.restart_history(100);
    assert!(matches!(ledger.plan_history(40), HistoryStep::Restart(40)));
    ledger.restart_history(40);
    assert!(matches!(ledger.plan_history(40), HistoryStep::Nothing));
}

#[test]
fn ranges_are_read_and_named() {
    for label in ["all", "7d", "30d", "1d"] {
        assert_eq!(UsageRange::parse(label).label(), label);
    }
    assert_eq!(UsageRange::parse("24h").label(), "1d");
    assert_eq!(UsageRange::parse("today").label(), "1d");
    assert_eq!(UsageRange::parse("year").label(), "all");
}

#[test]
fn accounts_are_told_apart() {
    let mut ledger = UsageDb::new();
    ledger.record(&tokens(1, 1, 2), meta("agent", "p", "m"), false, "");
    ledger.record(&tokens(2, 2, 4), meta("agent", "p", "m"), false, "alice");
    assert_eq!(ledger.records(Some("alice")).len(), 1);
    let all = ledger.stats(UsageRange::All, &unpriced(&ledger, None), None);
    assert_eq!(all.accounts.len(), 2);
    assert_eq!(all.accounts[0].acct, "alice");
    let hers = ledger.stats(
        UsageRange::All,
        &unpriced(&ledger, Some("alice")),
        Some("alice"),
    );
    assert_eq!(hers.totals.total, 4);
}

#[test]
fn a_store_records_under_its_account() {
    let mut store = StateStore::new("alice");
    store.add_usage(&tokens(10, 5, 15), meta("agent", "p", "m"));
    store.add_auxiliary_usage(
        &tokens(1, 1, 2),
        UsageMeta {
            kind: Some(USAGE_KIND_JUDGE),
            ..meta("qq", "p", "m")
        },
    );
    assert_eq!(store.usage_snapshot().total_tokens, 17);
    assert_eq!(
        store
            .usage_snapshot()
            .last_conversation_usage
            .unwrap()
            .total_tokens,
        15
    );
    let details = store.usage_details_for_account(10, None, None, Some("alice"));
    assert_eq!(details.len(), 2);
    let judged = details.iter().find(|call| call.src == "qq").unwrap();
    assert_eq!(judged.kind, "judge");
    assert!(judged.aux && judged.acct == "alice");
    assert_eq!(store.rename_usage_provider("p", "q"), 2);
    let stats = store.usage_stats(UsageRange::All, &vec![false, false]);
    assert_eq!(stats.sources.len(), 2);
    store.clear_usage_history();
    assert!(store
        .usage_details_for_account(10, None, None, None)
        .is_empty());
    store.reset_conversation_usage();
    store.clear_last_usage();
    assert_eq!(store.usage_snapshot().total_tokens, 17);
    assert_eq!(store.usage_snapshot().conversation_tokens, 0);
    assert_ne!(USAGE_KIND_AFFECTION, USAGE_KIND_GROUP_JOIN);
}

#[test]
fn days_are_counted_on_a_calendar() {
    let record = |ts: i64, total: u64| UsageRecord {
        ts,
        src: "agent".to_string(),
        provider: "p".to_string(),
        model: "m".to_string(),
        prompt: total,
        completion: 0,
        total,
        cache_read: 0,
        cache_write: 0,
        aux: false,
        kind: String::new(),
        acct: String::new(),
    };
    let records = vec![record(1_000_000, 5), record(1_090_000, 7)];
    let priced = vec![true, false];
    let days = vec![
        Some("1970-01-12".to_string()),
        Some("1970-01-13".to_string()),
    ];
    let book = Book {
        records: &records,
        priced: &priced,
        days: &days,
    };
    let calendar = Calendar {
        now: 1_095_000,
        today_start: 1_036_800,
        window: vec!["1970-01-12".to_string(), "1970-01-13".to_string()],
    };
    let stats = aggregate_on(book, UsageRange::All, None, &calendar);
    assert_eq!(stats.first_ts, Some(1_000_000));
    assert_eq!(stats.totals.total, 12);
    assert_eq!(stats.totals.costed, [0]);
    let totals: Vec<(String, u64)> = stats
        .daily
        .iter()
        .map(|day| (day.date.clone(), day.total))
        .collect();
    assert_eq!(
        totals,
        [("1970-01-12".to_string(), 5), ("1970-01-13".to_string(), 7)]
    );
    let day = aggregate_on(book, UsageRange::LastDay, None, &calendar);
    assert_eq!(day.totals.total, 7);
    assert_eq!(
        aggregate(&records, UsageRange::All, &priced, None)
            .totals
            .total,
        12
    );
}

#[test]
fn the_days_that_are_shown_end_with_today() {
    let starts = shown_starts(1_000_000);
    assert_eq!(starts.len(), 364);
    assert_eq!(starts[363], 1_000_000);
    assert_eq!(starts[362], 1_000_000 - 86_400);
    assert_eq!(starts[0], 1_000_000 - 363 * 86_400);
}

#[test]
fn a_record_at_the_end_of_the_calendar_is_counted() {
    let record = |ts: i64, acct: &str| UsageRecord {
        ts,
        src: String::new(),
        provider: "p".to_string(),
        model: "m".to_string(),
        prompt: 2,
        completion: 1,
        total: 3,
        cache_read: 1,
        cache_write: 0,
        aux: false,
        kind: String::new(),
        acct: acct.to_string(),
    };
    let records = vec![
        record(8_210_266_876_799, "a"),
        record(8_210_266_790_399, "b"),
        record(i64::MAX, "a"),
        record(-8_334_601_228_800, "b"),
    ];
    let priced = vec![true, false, true, false];
    let stats = aggregate(&records, UsageRange::All, &priced, None);
    assert_eq!(stats.totals.requests, 4);
    assert_eq!(stats.totals.total, 12);
    // The accounts and the sources add up to the whole in every respect.
    let sum = |of: fn(&miyu::state::usage::stats::UsageAggregate) -> u64| {
        (
            stats.accounts.iter().map(|line| of(&line.aggregate)).sum::<u64>(),
            stats.sources.iter().map(|line| of(&line.aggregate)).sum::<u64>(),
        )
    };
    assert_eq!(sum(|line| line.requests), (4, 4));
    assert_eq!(sum(|line| line.prompt), (8, 8));
    assert_eq!(sum(|line| line.completion), (4, 4));
    assert_eq!(sum(|line| line.cache_read), (4, 4));
    assert_eq!(sum(|line| line.total), (12, 12));
    assert_eq!(sum(|line| line.costed_requests), (2, 2));
}

#[test]
fn a_calendar_holds_the_dates_that_can_be_told() {
    let dates = vec![
        Some("1970-01-11".to_string()),
        None,
        Some("1970-01-13".to_string()),
    ];
    let known = calendar_of(1_095_000, Some(1_036_800), &dates);
    assert_eq!((known.now, known.today_start), (1_095_000, 1_036_800));
    assert_eq!(known.window, ["1970-01-11", "1970-01-13"]);
    // Where midnight cannot be told, the day begins now and shows no days.
    let unknown = calendar_of(1_095_000, None, &dates);
    assert_eq!((unknown.now, unknown.today_start), (1_095_000, 1_095_000));
    assert!(unknown.window.is_empty());
}

#[test]
fn a_call_of_just_now_is_counted_today() {
    let mut ledger = UsageDb::new();
    ledger.record(&tokens(1, 2, 3), meta("agent", "p", "m"), false, "");
    let stats = ledger.stats(UsageRange::All, &vec![false], None);
    let today = stats.daily.last().unwrap();
    assert_eq!(today.total, 3);
    assert_eq!(today.date, chrono::Local::now().format("%Y-%m-%d").to_string());
    assert_eq!(stats.daily.len(), 364);
}
