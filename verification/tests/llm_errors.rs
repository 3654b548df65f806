use miyu::clock::Moment;
use miyu::i18n::Locale;
use miyu::json::JsonShape;
use miyu::llm::errors::{
    anthropic_thinking_unsupported, classify_provider_error_body, format_error_chain,
    http_status_retry_delay, is_empty_error, non_stream_quota_fallback_candidate, normalize_error_signal,
    find_error_sentence, parse_retry_after, provider_error_text, provider_message, responses_unsupported, retry_after_at,
    retry_after_to_honor, retryable_http_status, retryable_transport_failure,
    stream_options_unsupported, zen_upstream_failed, HeaderNumber, HttpFailureKind,
    HttpStatusFailure, TransportFailure, TransportFailureKind,
};

#[test]
fn a_404_from_an_endpoint_is_endpoint_unavailable() {
    let body = r#"{"error":{"message":"Model 'Qwen3.5-2B-MLX-8bit' not found. Available models: bge-m3-mlx-8bit, Qwen3.6-35B-A3B-DFlash-MLX-6bit, Qwen3.6-35B-A3B-4bit","type":"not_found_error","param":null,"code":null}}"#;
    assert_eq!(
        HttpStatusFailure::classify(404, body, false).kind,
        HttpFailureKind::EndpointUnavailable
    );
}

#[test]
fn a_not_found_body_is_endpoint_unavailable_whatever_the_status() {
    let body = r#"{"error":{"type":"not_found_error","message":"no such deployment"}}"#;
    assert_eq!(
        classify_provider_error_body(body),
        Some(HttpFailureKind::EndpointUnavailable)
    );
}

#[test]
fn a_malformed_request_still_stops_the_failover() {
    let body =
        r#"{"error":{"type":"invalid_request_error","message":"messages must be an array"}}"#;
    assert_eq!(
        classify_provider_error_body(body),
        Some(HttpFailureKind::InvalidRequest)
    );
    assert_eq!(
        HttpStatusFailure::classify(400, body, false).kind,
        HttpFailureKind::InvalidRequest
    );
}

#[test]
fn anthropic_thinking_unsupported_detects_retryable_errors() {
    assert!(anthropic_thinking_unsupported(
        400,
        "invalid request: thinking is not supported by this model"
    ));
    assert!(anthropic_thinking_unsupported(
        422,
        "unknown parameter: thinking"
    ));
    assert!(!anthropic_thinking_unsupported(401, "invalid api key"));
    assert!(!anthropic_thinking_unsupported(
        400,
        "max_tokens is too low"
    ));
}

/// A header's number, in nanoseconds.
fn number(value: &str, unit: f64) -> HeaderNumber {
    match value.trim().parse::<f64>() {
        Ok(n) if n.is_finite() && n >= 0.0 => HeaderNumber::Nanos((n * unit) as u128),
        Ok(_) => HeaderNumber::Unusable,
        Err(_) => HeaderNumber::Absent,
    }
}

#[test]
fn retry_after_is_read_in_all_three_forms() {
    let with = |name: &str, value: &str| {
        if name == "retry-after-ms" {
            parse_retry_after(number(value, 1e6), None, HeaderNumber::Absent)
        } else {
            parse_retry_after(HeaderNumber::Absent, Some(value), number(value, 1e9))
        }
    };
    assert_eq!(with("retry-after-ms", "1500"), Some(1_500_000_000));
    assert_eq!(with("retry-after", "7"), Some(7_000_000_000));
    assert_eq!(
        with("retry-after", "Wed, 21 Oct 2015 07:28:00 GMT"),
        Some(0)
    );
    let at = (chrono::Utc::now() + chrono::Duration::seconds(30)).to_rfc2822();
    let wait = with("retry-after", &at).unwrap();
    assert!(
        wait > 20_000_000_000 && wait <= 30_000_000_000,
        "{wait:?}"
    );
    assert_eq!(with("retry-after", "soon"), None);
    assert_eq!(
        parse_retry_after(HeaderNumber::Absent, None, HeaderNumber::Absent),
        None
    );
}

#[test]
fn quota_and_overflow_get_their_own_classes() {
    let kind = |status, body, overflow| HttpStatusFailure::classify(status, body, overflow).kind;
    assert_eq!(kind(402, "{}", false), HttpFailureKind::Quota);
    assert_eq!(
        kind(429, r#"{"error":{"code":"insufficient_quota"}}"#, false),
        HttpFailureKind::Quota
    );
    assert_eq!(
        kind(429, r#"{"error":{"message":"Rate limit reached"}}"#, false),
        HttpFailureKind::RateLimit
    );
    assert_eq!(
        kind(
            400,
            r#"{"error":{"code":"context_length_exceeded"}}"#,
            true
        ),
        HttpFailureKind::ContextOverflow
    );
    assert_eq!(
        kind(
            429,
            r#"{"error":{"message":"Too many tokens, please wait before trying again."}}"#,
            true
        ),
        HttpFailureKind::RateLimit
    );
}

#[test]
fn an_out_of_balance_account_is_known_by_its_status() {
    let body = r#"{"error":{"message":"Insufficient Balance","type":"unknown_error","param":null,"code":"invalid_request_error"}}"#;
    let failure = HttpStatusFailure::classify(402, body, false);
    assert_eq!(failure.kind, HttpFailureKind::Quota);
    assert_eq!(failure.detail.as_deref(), Some("Insufficient Balance"));
    assert_eq!(
        failure.describe(Locale::En),
        "out of balance or quota（HTTP 402）：Insufficient Balance"
    );
}

#[test]
fn a_relay_does_not_show_a_status() {
    let failure = HttpStatusFailure::relay(429, HttpFailureKind::RateLimit);
    assert_eq!(failure.describe(Locale::En), "usage limit reached");
    assert_eq!(failure.describe(Locale::Zh), "额度用完或被限流");
}

#[test]
fn a_short_wait_of_a_rate_limit_is_honored() {
    let limited = |wait| {
        HttpStatusFailure::classify(429, "{}", false).with_retry_after(Some(wait))
    };
    assert_eq!(
        retry_after_to_honor(&limited(20_000_000_000)),
        Some(20_000_000_000)
    );
    assert_eq!(retry_after_to_honor(&limited(20_000_000_001)), None);
    let other = HttpStatusFailure::classify(500, "{}", false).with_retry_after(Some(1));
    assert_eq!(retry_after_to_honor(&other), None);
}

#[test]
fn a_date_is_waited_for_from_now() {
    let noon = chrono::DateTime::parse_from_rfc2822("Wed, 21 Oct 2015 12:00:00 GMT").unwrap();
    let now = Moment {
        secs: noon.timestamp(),
        nanos: 500_000_000,
    };
    assert_eq!(
        retry_after_at(
            HeaderNumber::Absent,
            Some("Wed, 21 Oct 2015 12:00:02 GMT"),
            HeaderNumber::Absent,
            now
        ),
        Some(1_500_000_000)
    );
}

#[test]
fn server_failures_are_tried_again_with_growing_delays() {
    assert!(retryable_http_status(503) && !retryable_http_status(429));
    let delays: Vec<u64> = (0..8).map(http_status_retry_delay).collect();
    assert_eq!(delays, [2, 2, 4, 8, 16, 32, 64, 120]);
}

#[test]
fn only_a_failed_connection_is_tried_again() {
    assert!(retryable_transport_failure(TransportFailureKind::Connect));
    assert!(!retryable_transport_failure(TransportFailureKind::Timeout));
    assert!(!retryable_transport_failure(TransportFailureKind::Other));
    let failure = TransportFailure {
        stage: "chat".to_string(),
        kind: TransportFailureKind::Other,
    };
    assert_eq!(failure.describe(), "chat transport failed (request)");
}

#[test]
fn what_an_endpoint_does_not_support_is_known() {
    assert!(responses_unsupported(404, ""));
    assert!(responses_unsupported(400, "Unknown parameter: input"));
    assert!(!responses_unsupported(400, "bad key"));
    assert!(stream_options_unsupported(400, "Unrecognized stream_options"));
    assert!(!stream_options_unsupported(500, "Unrecognized stream_options"));
    assert!(non_stream_quota_fallback_candidate(429, "INSUFFICIENT_QUOTA"));
    assert!(zen_upstream_failed(true, 400, "Upstream request failed"));
    assert!(!zen_upstream_failed(false, 400, "Upstream request failed"));
}

#[test]
fn signals_are_snake_case() {
    assert_eq!(normalize_error_signal("InvalidRequest-Error"), "invalid_request_error");
    assert_eq!(normalize_error_signal("not found"), "not_found");
}

#[test]
fn what_a_provider_says_fits_on_a_line() {
    let long = "x".repeat(200);
    let said = provider_message(&format!("{{\"error\":{{\"message\":\"{long}\"}}}}")).unwrap();
    assert_eq!(said.chars().count(), 121);
    assert!(said.ends_with('…'));
    assert_eq!(provider_message("  \n "), None);
    assert_eq!(provider_message("a\n  b").as_deref(), Some("a b"));
}

#[test]
fn causes_follow_each_other() {
    let chain = vec!["a".to_string(), "b".to_string(), "b".to_string()];
    assert_eq!(format_error_chain(&chain), "a: b: b");
    assert_eq!(format_error_chain(&Vec::new()), "");
}

fn member(name: &str, value: &str) -> (String, String) {
    (name.to_string(), value.to_string())
}

#[test]
fn an_error_that_says_nothing_is_empty() {
    assert!(is_empty_error(&JsonShape::Null));
    assert!(is_empty_error(&JsonShape::Text(" \n".to_string())));
    assert!(is_empty_error(&JsonShape::Object(vec![])));
    assert!(!is_empty_error(&JsonShape::Text("busy".to_string())));
    assert!(!is_empty_error(&JsonShape::Bool(false)));
    assert!(!is_empty_error(&JsonShape::List(vec![])));
    assert!(!is_empty_error(&JsonShape::Object(vec![member("code", "1")])));
}

#[test]
fn the_sentence_of_an_error_is_its_message() {
    let direct = JsonShape::Object(vec![member("message", "\"slow down\"")]);
    assert_eq!(find_error_sentence(&direct, "raw"), "slow down");
    let nested = JsonShape::Object(vec![member("error", "{\"message\":\"no such model\"}")]);
    assert_eq!(find_error_sentence(&nested, "raw"), "no such model");
    let wrong = JsonShape::Object(vec![member("message", "7"), member("error", "\"text\"")]);
    assert_eq!(find_error_sentence(&wrong, "raw"), "raw");
    assert_eq!(find_error_sentence(&JsonShape::Number, "42"), "42");
}

#[test]
fn the_sentence_of_an_error_is_cleaned() {
    let clean = |sentence: String| sentence.trim().replace('*', "");
    let direct = JsonShape::Object(vec![member("message", "\" **slow** down\"")]);
    assert_eq!(provider_error_text(&direct, "raw", clean), "slow down");
    assert_eq!(provider_error_text(&JsonShape::Null, " null", clean), "null");
}
