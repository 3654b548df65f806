use miyu::llm::cache_break::{
    self, judge, note_cache_rebuild, take_cache_breaks, CacheBreak, CacheBreakCause, Tracker,
};
use miyu::llm::cache_prefix::{
    self, compare_and_store, describe_tool_change, role_tag, EncodedMessage, EncodedTool,
    PrefixChain, PrefixDiff, PrefixLog,
};
use miyu::state::usage::Usage;

fn usage(prompt: u64, read: u64) -> Usage {
    Usage {
        prompt_tokens: prompt,
        completion_tokens: 0,
        total_tokens: 0,
        cache_read_tokens: read,
        cache_write_tokens: 0,
        reasoning_tokens: 0,
        cache_reported: true,
    }
}

fn append(previous: usize) -> PrefixDiff {
    PrefixDiff {
        messages: previous + 2,
        previous: Some(previous),
        same: previous,
        ..PrefixDiff::new()
    }
}

fn second(session: &str, prefix: &PrefixDiff, now: Usage) -> Vec<CacheBreak> {
    let mut tracker = Tracker::new();
    judge(
        &mut tracker,
        "chat",
        Some(session),
        Some("t1"),
        &append(4),
        Some(&usage(100_000, 0)),
        0,
    );
    judge(
        &mut tracker,
        "chat",
        Some(session),
        Some("t2"),
        prefix,
        Some(&now),
        7_500_000_000,
    );
    take_cache_breaks(&mut tracker, session)
}

#[test]
fn a_cold_first_request_and_small_gaps_are_not_breaks() {
    let mut tracker = Tracker::new();
    judge(
        &mut tracker,
        "chat",
        Some("cb-cold"),
        None,
        &append(4),
        Some(&usage(100_000, 0)),
        0,
    );
    assert!(take_cache_breaks(&mut tracker, "cb-cold").is_empty());
    assert!(second("cb-hit", &append(6), usage(110_000, 96_000)).is_empty());
    assert!(second("cb-floor", &append(6), usage(3_000, 1_500)).is_empty());
}

#[test]
fn a_pure_append_that_missed_is_on_the_provider() {
    let breaks = second("cb-provider", &append(6), usage(120_000, 10_240));
    assert_eq!(breaks.len(), 1);
    assert_eq!(breaks[0].cause, CacheBreakCause::Provider);
    assert_eq!(breaks[0].lost_tokens, 100_000 - 10_240);
    assert_eq!(breaks[0].turn_id.as_deref(), Some("t2"));
    assert_eq!(breaks[0].idle_secs, 7);
}

#[test]
fn our_own_rewrites_are_named() {
    let system = PrefixDiff {
        same: 0,
        rewritten_at: Some((0, "system")),
        ..append(6)
    };
    let tools = PrefixDiff {
        tools_changed: true,
        tools_diff: Some("+send_qq_message,+qq_contacts".into()),
        ..append(6)
    };
    let history = PrefixDiff {
        same: 3,
        rewritten_at: Some((3, "tool")),
        ..append(6)
    };
    assert_eq!(
        second("cb-system", &system, usage(120_000, 0))[0].cause,
        CacheBreakCause::SystemPrompt
    );
    assert_eq!(
        second("cb-tools", &tools, usage(120_000, 13_000))[0].cause,
        CacheBreakCause::Tools {
            changes: "+send_qq_message,+qq_contacts".into()
        }
    );
    assert_eq!(
        second("cb-history", &history, usage(120_000, 30_000))[0].cause,
        CacheBreakCause::History {
            at: 3,
            role: "tool".into()
        }
    );
}

#[test]
fn the_request_after_a_compaction_is_an_expected_rebuild() {
    let mut tracker = Tracker::new();
    judge(
        &mut tracker,
        "chat",
        Some("cb-rebuild"),
        None,
        &append(4),
        Some(&usage(100_000, 0)),
        0,
    );
    note_cache_rebuild(&mut tracker, "cb-rebuild");
    let rewritten = PrefixDiff {
        same: 1,
        rewritten_at: Some((1, "user")),
        ..append(6)
    };
    judge(
        &mut tracker,
        "chat",
        Some("cb-rebuild"),
        None,
        &rewritten,
        Some(&usage(40_000, 12_000)),
        1,
    );
    assert!(take_cache_breaks(&mut tracker, "cb-rebuild").is_empty());
    judge(
        &mut tracker,
        "chat",
        Some("cb-rebuild"),
        None,
        &append(6),
        Some(&usage(45_000, 0)),
        2,
    );
    assert_eq!(take_cache_breaks(&mut tracker, "cb-rebuild").len(), 1);
}

#[test]
fn side_requests_and_providers_without_cache_accounting_are_not_judged() {
    let mut tracker = Tracker::new();
    judge(
        &mut tracker,
        "qq-judge",
        Some("cb-side"),
        None,
        &append(4),
        Some(&usage(100_000, 0)),
        0,
    );
    judge(
        &mut tracker,
        "qq-judge",
        Some("cb-side"),
        None,
        &append(6),
        Some(&usage(120_000, 0)),
        1,
    );
    assert!(take_cache_breaks(&mut tracker, "cb-side").is_empty());
    let unreported = Usage {
        cache_reported: false,
        ..usage(120_000, 0)
    };
    judge(
        &mut tracker,
        "chat",
        Some("cb-agy"),
        None,
        &append(4),
        Some(&unreported),
        2,
    );
    judge(
        &mut tracker,
        "chat",
        Some("cb-agy"),
        None,
        &append(6),
        Some(&unreported),
        3,
    );
    assert!(take_cache_breaks(&mut tracker, "cb-agy").is_empty());
}

#[test]
fn a_break_is_taken_once_and_forgotten_with_its_session() {
    let mut tracker = Tracker::new();
    for (at, read) in [(0, 0), (1, 0)] {
        judge(
            &mut tracker,
            "chat",
            Some("a"),
            None,
            &append(4),
            Some(&usage(100_000, read)),
            at,
        );
    }
    assert_eq!(take_cache_breaks(&mut tracker, "a").len(), 1);
    assert!(take_cache_breaks(&mut tracker, "a").is_empty());
    cache_break::forget_session(&mut tracker, "a");
    judge(
        &mut tracker,
        "chat",
        Some("a"),
        None,
        &append(4),
        Some(&usage(100_000, 0)),
        2,
    );
    assert!(take_cache_breaks(&mut tracker, "a").is_empty());
}

#[test]
fn exactly_ninety_five_percent_is_a_hit() {
    assert!(second("edge", &append(6), usage(100_000, 95_000)).is_empty());
    assert_eq!(
        second("edge", &append(6), usage(100_000, 94_999))[0].lost_tokens,
        5_001
    );
}

fn message(role: &str, text: &str) -> EncodedMessage {
    EncodedMessage {
        role: role.to_string(),
        encoded: Some(format!("{{\"role\":\"{role}\",\"content\":\"{text}\"}}").into_bytes()),
    }
}

fn tool(name: &str, description: &str) -> EncodedTool {
    EncodedTool {
        name: name.to_string(),
        encoded: Some(
            format!("{{\"name\":\"{name}\",\"description\":\"{description}\"}}").into_bytes(),
        ),
    }
}

fn chain(messages: &Vec<EncodedMessage>, tools: &Vec<EncodedTool>) -> PrefixChain {
    let mut list = Vec::new();
    for tool in tools {
        list.extend_from_slice(tool.encoded.as_ref().unwrap());
    }
    PrefixChain::of(messages, tools, &Some(list))
}

#[test]
fn append_only_requests_report_the_whole_previous_prefix_as_shared() {
    let mut log = PrefixLog::new();
    let tools = Vec::new();
    let first = vec![message("system", "s"), message("user", "a")];
    let second = vec![
        message("system", "s"),
        message("user", "a"),
        message("assistant", "b"),
    ];
    let scope = "t-append";
    compare_and_store(&mut log, scope, Some("s1"), &chain(&first, &tools));
    let diff = compare_and_store(&mut log, scope, Some("s1"), &chain(&second, &tools));
    assert_eq!(diff.same, 2);
    assert_eq!(diff.previous, Some(2));
    assert!(diff.rewritten_at.is_none());
    assert!(diff.append_only());
}

#[test]
fn a_rewritten_system_prompt_points_at_the_first_changed_message() {
    let mut log = PrefixLog::new();
    let tools = Vec::new();
    let first = vec![message("system", "s"), message("user", "a")];
    let second = vec![message("system", "s-changed"), message("user", "a")];
    let scope = "t-rewrite";
    compare_and_store(&mut log, scope, Some("s1"), &chain(&first, &tools));
    let diff = compare_and_store(&mut log, scope, Some("s1"), &chain(&second, &tools));
    assert_eq!(diff.same, 0);
    assert_eq!(diff.rewritten_at, Some((0, "system")));
    assert!(!diff.append_only());
}

#[test]
fn a_changed_tool_table_is_reported_even_when_messages_match() {
    let mut log = PrefixLog::new();
    let first = vec![message("system", "s")];
    let scope = "t-tools";
    compare_and_store(&mut log, scope, Some("s1"), &chain(&first, &Vec::new()));
    let tools = vec![tool("read", "")];
    let diff = compare_and_store(&mut log, scope, Some("s1"), &chain(&first, &tools));
    assert_eq!(diff.same, 1);
    assert!(diff.tools_changed);
    assert!(!diff.append_only());
    assert_eq!(diff.tools_diff.as_deref(), Some("+read"));
}

#[test]
fn a_tool_change_names_what_was_added_removed_and_edited() {
    let mut log = PrefixLog::new();
    let first = vec![message("system", "s")];
    let scope = "t-tools-diff";
    let before = vec![tool("read", ""), tool("edit", ""), tool("bash", "")];
    compare_and_store(&mut log, scope, Some("s1"), &chain(&first, &before));
    let after = vec![tool("read", ""), tool("edit", "changed"), tool("load_skill", "")];
    let diff = compare_and_store(&mut log, scope, Some("s1"), &chain(&first, &after));
    assert_eq!(diff.tools_diff.as_deref(), Some("~edit,+load_skill,-bash"));
    assert_eq!(diff.system, chain(&first, &after).system);
    assert_ne!(diff.tools, 0);
}

#[test]
fn separate_sessions_do_not_contaminate_each_others_chains() {
    let mut log = PrefixLog::new();
    let tools = Vec::new();
    let scope = "t-sessions";
    let a = vec![message("system", "a")];
    let b = vec![message("system", "b")];
    compare_and_store(&mut log, scope, Some("sa"), &chain(&a, &tools));
    compare_and_store(&mut log, scope, Some("sb"), &chain(&b, &tools));
    let diff = compare_and_store(&mut log, scope, Some("sa"), &chain(&a, &tools));
    assert_eq!(diff.same, 1);
    assert!(diff.append_only());
}

#[test]
fn a_forgotten_session_starts_anew() {
    let mut log = PrefixLog::new();
    let tools = Vec::new();
    let a = vec![message("system", "a")];
    compare_and_store(&mut log, "chat", Some("sa"), &chain(&a, &tools));
    compare_and_store(&mut log, "chat", Some("sb"), &chain(&a, &tools));
    cache_prefix::forget_session(&mut log, "sa");
    let gone = compare_and_store(&mut log, "chat", Some("sa"), &chain(&a, &tools));
    assert_eq!(gone.previous, None);
    let kept = compare_and_store(&mut log, "chat", Some("sb"), &chain(&a, &tools));
    assert_eq!(kept.previous, Some(1));
}

#[test]
fn hashes_are_the_first_bytes_of_a_blake3_digest() {
    let first = vec![message("system", "s")];
    let bytes = first[0].encoded.clone().unwrap();
    let digest = blake3::hash(&bytes);
    let mut head = [0u8; 8];
    head.copy_from_slice(&digest.as_bytes()[..8]);
    let expected = u64::from_le_bytes(head);
    let of = chain(&first, &Vec::new());
    assert_eq!(of.system, expected);
    assert_eq!(of.chain.len(), 1);
    let more = chain(&vec![message("system", "s"), message("user", "u")], &Vec::new());
    assert_eq!(more.chain[0], of.chain[0]);
    assert_ne!(more.chain[1], more.chain[0]);
    assert_eq!(more.roles, ["system", "user"]);
}

#[test]
fn many_tool_changes_are_only_counted() {
    let after: Vec<(String, u64)> = (0..14).map(|n| (format!("t{n}"), n)).collect();
    let change = describe_tool_change(&Vec::new(), &after);
    assert!(change.ends_with("+t11,…2 more"), "{change}");
    assert_eq!(describe_tool_change(&after, &after), "order");
}

#[test]
fn roles_that_are_not_known_are_others() {
    assert_eq!(role_tag("tool"), "tool");
    assert_eq!(role_tag("developer"), "developer");
    assert_eq!(role_tag("narrator"), "other");
}
