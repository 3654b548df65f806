//! What a failed request means.
//!
//! Whether to retry and whether to try another endpoint both follow from the
//! class a failure is put in here. There are two layers: transport (could not
//! connect, timed out) and HTTP (status code and body). Status codes of model
//! providers are not to be trusted on their own, so the body is read for
//! signals as well.

use vstd::prelude::*;

use crate::clock::{self, now, read_rfc2822, wait_until, Moment};
use crate::i18n::{self, text_for, Locale};
use crate::json::{self, read_json, JsonShape, JsonView};
use crate::text::{
    self, chars_of, holds, lowered, push_decimal, squeeze, string_of,
    string_of_range, to_lower, trimmed,
};

verus! {

#[derive(Debug, Clone, Copy, PartialEq, Eq, Structural)]
pub enum HttpFailureKind {
    Status,
    Authentication,
    RateLimit,
    EndpointUnavailable,
    EndpointIncompatible,
    InvalidRequest,
    /// The provider's content policy stopped this prompt.
    ContentPolicy,
    /// The conversation is longer than this model's context window.
    ContextOverflow,
    /// The balance or the quota of the account is used up.
    Quota,
}

// ---------------------------------------------------------------------------
// Signals
// ---------------------------------------------------------------------------

/// Whether a word begins at `s[i]`, an upper-case letter after a lower-case
/// one, or the last of a run of upper-case letters before a lower-case one.
pub open spec fn camel_boundary(s: Seq<char>, i: int) -> bool {
    text::is_upper(s[i]) && i > 0 && (text::is_lower(s[i - 1]) || text::is_digit(s[i - 1]) || (text::is_upper(s[i - 1]) && i
        + 1 < s.len() && text::is_lower(s[i + 1])))
}

/// The first `n` characters of `s` in snake case, a separator still open at
/// the end kept as `_`.
pub open spec fn snake_prefix(s: Seq<char>, n: int) -> Seq<char>
    decreases n,
{
    if n <= 0 {
        Seq::empty()
    } else {
        let before = snake_prefix(s, n - 1);
        let c = s[n - 1];
        let open = before.len() > 0 && before.last() != '_';
        if text::is_alnum(c) {
            if open && camel_boundary(s, n - 1) {
                before.push('_').push(text::lower_char(c))
            } else {
                before.push(text::lower_char(c))
            }
        } else if open {
            before.push('_')
        } else {
            before
        }
    }
}

/// `s` in snake case: its ASCII letters and digits in lower case, with one `_`
/// for everything between two of its words and nothing at the ends.
pub open spec fn snake_case(s: Seq<char>) -> Seq<char> {
    let all = snake_prefix(s, s.len() as int);
    if all.len() > 0 && all.last() == '_' {
        all.drop_last()
    } else {
        all
    }
}

/// `value` in snake case.
pub fn normalize_error_signal(value: &str) -> (out: String)
    ensures
        out@ == snake_case(value@),
{
    let chars = chars_of(value);
    let mut out: Vec<char> = Vec::new();
    let mut separator = false;
    let mut i: usize = 0;
    while i < chars.len()
        invariant
            i <= chars@.len(),
            out@ == snake_prefix(chars@, i as int),
            separator <==> (out@.len() > 0 && out@.last() == '_'),
        decreases chars@.len() - i,
    {
        let c = chars[i];
        let upper = 'A' <= c && c <= 'Z';
        let lower = 'a' <= c && c <= 'z';
        let digit = '0' <= c && c <= '9';
        if upper || lower || digit {
            let boundary = if upper && i > 0 {
                let p = chars[i - 1];
                ('a' <= p && p <= 'z') || ('0' <= p && p <= '9') || ('A' <= p && p <= 'Z' && i + 1
                    < chars.len() && 'a' <= chars[i + 1] && chars[i + 1] <= 'z')
            } else {
                false
            };
            if boundary && !separator && out.len() > 0 {
                out.push('_');
            }
            out.push(to_lower(c));
            separator = false;
        } else if !separator && out.len() > 0 {
            out.push('_');
            separator = true;
        }
        i += 1;
    }
    if separator {
        let n: usize = out.len() - 1;
        proof {
            assert(out@.subrange(0, n as int) =~= out@.drop_last());
        }
        string_of_range(&out, 0, n)
    } else {
        string_of(&out)
    }
}

/// Whether one of `needles` stands in `s`.
pub open spec fn holds_any(s: Seq<char>, needles: Seq<&str>) -> bool {
    exists|i: int| 0 <= i < needles.len() && text::contains(s, #[trigger] needles[i]@)
}

/// Whether one of `needles` stands in `value`.
pub fn contains_any(value: &Vec<char>, needles: &[&str]) -> (r: bool)
    ensures
        r == holds_any(value@, needles@),
{
    let mut i: usize = 0;
    while i < needles.len()
        invariant
            i <= needles@.len(),
            forall|k: int| 0 <= k < i ==> !text::contains(value@, #[trigger] needles@[k]@),
        decreases needles@.len() - i,
    {
        if holds(value, needles[i]) {
            return true;
        }
        i += 1;
    }
    false
}

// ---------------------------------------------------------------------------
// Reading the body
// ---------------------------------------------------------------------------

pub open spec fn authentication_signals() -> Seq<&'static str> {
    seq![
        "invalid_api_key",
        "incorrect_api_key",
        "authentication",
        "unauthorized",
        "forbidden",
        "permission_denied",
    ]
}

/// The account has nothing left, which waiting does not mend.
pub open spec fn quota_signals() -> Seq<&'static str> {
    seq![
        "insufficient_quota",
        "insufficient_balance",
        "exceeded_current_quota",
        "billing_hard_limit",
        "payment_required",
        "insufficient_credit",
        "out_of_credit",
    ]
}

pub open spec fn rate_limit_signals() -> Seq<&'static str> {
    seq!["rate_limit", "ratelimit", "quota", "too_many_requests"]
}

pub open spec fn unavailable_signals() -> Seq<&'static str> {
    seq![
        "model_not_found",
        "model_not_available",
        "model_unavailable",
        "unsupported_model",
        "deployment_not_found",
        "model_access_denied",
        "no_available_provider",
        "not_found",
        "provider_unavailable",
        "upstream_request_failed",
        "service_unavailable",
        "overloaded",
    ]
}

pub open spec fn overflow_signals() -> Seq<&'static str> {
    seq![
        "context_length_exceeded",
        "context_window_exceeded",
        "maximum_context_length",
        "model_context_window_exceeded",
    ]
}

pub open spec fn incompatible_signals() -> Seq<&'static str> {
    seq![
        "context_length",
        "context_window",
        "max_tokens",
        "unsupported_parameter",
        "unknown_parameter",
        "unsupported_feature",
        "not_supported",
    ]
}

pub open spec fn invalid_request_signals() -> Seq<&'static str> {
    seq!["invalid_request", "invalid_argument", "malformed", "validation_error"]
}

/// Whether one of `needles` stands in one of `signals`.
pub open spec fn signalled(signals: Seq<Seq<char>>, needles: Seq<&str>) -> bool {
    exists|i: int| 0 <= i < signals.len() && holds_any(#[trigger] signals[i], needles)
}

/// The class that a list of signals stands for: the first class, in this
/// order, of which one signal holds a word.
pub open spec fn class_of(signals: Seq<Seq<char>>) -> Option<HttpFailureKind> {
    if signalled(signals, authentication_signals()) {
        Some(HttpFailureKind::Authentication)
    } else if signalled(signals, quota_signals()) {
        Some(HttpFailureKind::Quota)
    } else if signalled(signals, rate_limit_signals()) {
        Some(HttpFailureKind::RateLimit)
    } else if signalled(signals, unavailable_signals()) {
        Some(HttpFailureKind::EndpointUnavailable)
    } else if signalled(signals, overflow_signals()) {
        Some(HttpFailureKind::ContextOverflow)
    } else if signalled(signals, incompatible_signals()) {
        Some(HttpFailureKind::EndpointIncompatible)
    } else if signalled(signals, invalid_request_signals()) {
        Some(HttpFailureKind::InvalidRequest)
    } else {
        None
    }
}

/// Whether one of `needles` stands in one of `signals`.
fn any_signal(signals: &Vec<String>, needles: &[&str]) -> (r: bool)
    ensures
        r == signalled(json::texts(signals@), needles@),
{
    let ghost all = json::texts(signals@);
    let mut i: usize = 0;
    while i < signals.len()
        invariant
            i <= signals@.len(),
            all == json::texts(signals@),
            forall|k: int| 0 <= k < i ==> !holds_any(#[trigger] all[k], needles@),
        decreases signals@.len() - i,
    {
        let chars = chars_of(signals[i].as_str());
        assert(all[i as int] == chars@);
        if contains_any(&chars, needles) {
            return true;
        }
        i += 1;
    }
    false
}

/// The class that a list of signals stands for.
pub fn classify_signals(signals: &Vec<String>) -> (kind: Option<HttpFailureKind>)
    ensures
        kind == class_of(json::texts(signals@)),
{
    let authentication = [
        "invalid_api_key",
        "incorrect_api_key",
        "authentication",
        "unauthorized",
        "forbidden",
        "permission_denied",
    ];
    assert(authentication@ =~= authentication_signals());
    if any_signal(signals, &authentication) {
        return Some(HttpFailureKind::Authentication);
    }
    if any_signal(signals, &quota_words()) {
        return Some(HttpFailureKind::Quota);
    }
    let rate_limit = ["rate_limit", "ratelimit", "quota", "too_many_requests"];
    assert(rate_limit@ =~= rate_limit_signals());
    if any_signal(signals, &rate_limit) {
        return Some(HttpFailureKind::RateLimit);
    }
    let unavailable = [
        "model_not_found",
        "model_not_available",
        "model_unavailable",
        "unsupported_model",
        "deployment_not_found",
        "model_access_denied",
        "no_available_provider",
        "not_found",
        "provider_unavailable",
        "upstream_request_failed",
        "service_unavailable",
        "overloaded",
    ];
    assert(unavailable@ =~= unavailable_signals());
    if any_signal(signals, &unavailable) {
        return Some(HttpFailureKind::EndpointUnavailable);
    }
    let overflow = [
        "context_length_exceeded",
        "context_window_exceeded",
        "maximum_context_length",
        "model_context_window_exceeded",
    ];
    assert(overflow@ =~= overflow_signals());
    if any_signal(signals, &overflow) {
        return Some(HttpFailureKind::ContextOverflow);
    }
    let incompatible = [
        "context_length",
        "context_window",
        "max_tokens",
        "unsupported_parameter",
        "unknown_parameter",
        "unsupported_feature",
        "not_supported",
    ];
    assert(incompatible@ =~= incompatible_signals());
    if any_signal(signals, &incompatible) {
        return Some(HttpFailureKind::EndpointIncompatible);
    }
    let invalid_request = ["invalid_request", "invalid_argument", "malformed", "validation_error"];
    assert(invalid_request@ =~= invalid_request_signals());
    if any_signal(signals, &invalid_request) {
        return Some(HttpFailureKind::InvalidRequest);
    }
    None
}

/// The words that say an account has nothing left.
fn quota_words() -> (words: [&'static str; 7])
    ensures
        words@ == quota_signals(),
{
    let words = [
        "insufficient_quota",
        "insufficient_balance",
        "exceeded_current_quota",
        "billing_hard_limit",
        "payment_required",
        "insufficient_credit",
        "out_of_credit",
    ];
    assert(words@ =~= quota_signals());
    words
}

/// Whether `body` says that the account has nothing left.
pub fn quota_exhausted(body: &str) -> (r: bool)
    ensures
        r == holds_any(snake_case(body@), quota_signals()),
{
    let signal = normalize_error_signal(body);
    contains_any(&chars_of(signal.as_str()), &quota_words())
}

/// The error a body reports: its `error` member, or the body itself where it
/// has none.
pub open spec fn reported_error(body: Seq<char>) -> Option<JsonView> {
    match json::json_shape(body) {
        Some(shape) => match json::member(shape, "error"@) {
            Some(error) => json::json_shape(error),
            None => Some(shape),
        },
        None => None,
    }
}

/// The fields of an error that carry signals.
pub open spec fn signal_fields() -> Seq<&'static str> {
    seq!["code", "type", "status", "message"]
}

/// The signals in the first `n` of the fields that carry them.
pub open spec fn field_signals(error: JsonView, n: int) -> Seq<Seq<char>>
    decreases n,
{
    if n <= 0 {
        Seq::empty()
    } else {
        let before = field_signals(error, n - 1);
        match json::member_text(error, signal_fields()[n - 1]@) {
            Some(value) => before.push(snake_case(value)),
            None => before,
        }
    }
}

/// The signals of a body: those in the fields of the error it reports, or the
/// whole body where no field carries one.
pub open spec fn body_signals(body: Seq<char>, error: Option<JsonView>) -> Seq<Seq<char>> {
    let fields = match error {
        Some(error) => field_signals(error, 4),
        None => Seq::empty(),
    };
    if fields.len() == 0 {
        seq![snake_case(body)]
    } else {
        fields
    }
}

/// The signals of `body`, which reports `error`.
pub fn error_signals(body: &str, error: &Option<JsonShape>) -> (signals: Vec<String>)
    ensures
        json::texts(signals@) == body_signals(
            body@,
            match error {
                Some(e) => Some(e@),
                None => None,
            },
        ),
{
    let mut signals: Vec<String> = Vec::new();
    if let Some(error) = error {
        let fields = ["code", "type", "status", "message"];
        assert(fields@ =~= signal_fields());
        let mut i: usize = 0;
        while i < 4
            invariant
                i <= 4,
                fields@ == signal_fields(),
                json::texts(signals@) =~= field_signals(error@, i as int),
            decreases 4 - i,
        {
            if let Some(value) = error.get_text(fields[i]) {
                signals.push(normalize_error_signal(value.as_str()));
            }
            i += 1;
        }
    }
    if signals.len() == 0 {
        signals.push(normalize_error_signal(body));
        assert(json::texts(signals@) =~= seq![snake_case(body@)]);
    }
    signals
}

/// The error a body reports.
fn read_error(body: &str) -> (error: Option<JsonShape>)
    ensures
        match error {
            Some(e) => reported_error(body@) == Some(e@),
            None => reported_error(body@) is None,
        },
{
    match read_json(body) {
        Some(shape) => match shape.get("error") {
            Some(error) => read_json(error.as_str()),
            None => Some(shape),
        },
        None => None,
    }
}

/// The class a response body stands for, whatever its status.
pub fn classify_provider_error_body(body: &str) -> (kind: Option<HttpFailureKind>)
    ensures
        kind == class_of(body_signals(body@, reported_error(body@))),
{
    let error = read_error(body);
    let signals = error_signals(body, &error);
    classify_signals(&signals)
}

// ---------------------------------------------------------------------------
// The sentence for people
// ---------------------------------------------------------------------------

/// A detail on one line: its words with one space between each two, cut after
/// 120 characters. A detail without words is none.
pub open spec fn clipped(detail: Seq<char>) -> Option<Seq<char>> {
    let line = text::squeezed(detail);
    if line.len() == 0 {
        None
    } else if line.len() <= 120 {
        Some(line)
    } else {
        Some(line.take(120).push('…'))
    }
}

/// Cuts `detail` to a length that reads on one line.
pub fn clip_detail(detail: &str) -> (out: Option<String>)
    ensures
        json::opt_text(out) == clipped(detail@),
{
    let line = squeeze(detail);
    if line.len() == 0 {
        return None;
    }
    if line.len() <= 120 {
        return Some(string_of(&line));
    }
    let mut out = string_of_range(&line, 0, 120);
    assert(out@ =~= line@.take(120));
    out.push('…');
    Some(out)
}

/// What the provider itself says in `body`, which reports `error`: the error's
/// message, or the whole body where it has none.
pub open spec fn provider_words(body: Seq<char>, error: Option<JsonView>) -> Seq<char> {
    match error {
        Some(error) => match json::member_text(error, "message"@) {
            Some(message) => message,
            None => body,
        },
        None => body,
    }
}

/// What the provider itself says in `body`, which reports `error`, on one line.
pub fn message_in(body: &str, error: &Option<JsonShape>) -> (message: Option<String>)
    ensures
        json::opt_text(message) == clipped(
            provider_words(
                body@,
                match error {
                    Some(e) => Some(e@),
                    None => None,
                },
            ),
        ),
{
    if let Some(error) = error {
        if let Some(message) = error.get_text("message") {
            return clip_detail(message.as_str());
        }
    }
    clip_detail(body)
}

/// What the provider itself says in `body`, on one line.
pub fn provider_message(body: &str) -> (message: Option<String>)
    ensures
        json::opt_text(message) == clipped(provider_words(body@, reported_error(body@))),
{
    let error = read_error(body);
    message_in(body, &error)
}

/// Whether an `error` field says nothing.
pub open spec fn says_nothing(value: JsonView) -> bool {
    match value {
        JsonView::Text(t) => text::trim(t).len() == 0,
        JsonView::Object(members) => members.len() == 0,
        JsonView::Null => true,
        _ => false,
    }
}

/// Whether an `error` field says nothing.
pub fn is_empty_error(value: &JsonShape) -> (r: bool)
    ensures
        r == says_nothing(value@),
{
    match value {
        JsonShape::Text(t) => trimmed(t.as_str()).as_str().is_empty(),
        JsonShape::Object(members) => members.len() == 0,
        JsonShape::Null => true,
        _ => false,
    }
}

/// The sentence in an error value: its `message`, or the `message` of its
/// `error`, or `rendered`, the value as JSON text.
pub open spec fn error_sentence(value: JsonView, rendered: Seq<char>) -> Seq<char> {
    match json::member_text(value, "message"@) {
        Some(message) => message,
        None => match json::member(value, "error"@) {
            Some(error) => match json::json_shape(error) {
                Some(shape) => match json::member_text(shape, "message"@) {
                    Some(message) => message,
                    None => rendered,
                },
                None => rendered,
            },
            None => rendered,
        },
    }
}

/// The sentence in an error value that reads `rendered` as JSON text, as it was
/// found.
pub fn find_error_sentence(value: &JsonShape, rendered: &str) -> (out: String)
    ensures
        out@ == error_sentence(value@, rendered@),
{
    if let Some(message) = value.get_text("message") {
        return message;
    }
    if let Some(error) = value.get("error") {
        if let Some(shape) = read_json(error.as_str()) {
            if let Some(message) = shape.get_text("message") {
                return message;
            }
        }
    }
    rendered.to_owned()
}

/// The sentence in an error value that reads `rendered` as JSON text, cleaned
/// by `clean`.
pub fn provider_error_text<F: FnOnce(String) -> String>(
    value: &JsonShape,
    rendered: &str,
    clean: F,
) -> (out: String)
    requires
        forall|sentence: String| clean.requires((sentence,)),
    ensures
        exists|sentence: String|
            sentence@ == error_sentence(value@, rendered@) && #[trigger] clean.ensures(
                (sentence,),
                out,
            ),
{
    let sentence = find_error_sentence(value, rendered);
    clean(sentence)
}

impl HttpFailureKind {
    /// What happened, in a few words. `relay` says that no HTTP request was
    /// made and that the status was read off a command's output.
    pub open spec fn words(self, relay: bool, locale: Locale) -> &'static str {
        match self {
            HttpFailureKind::RateLimit => if relay {
                i18n::wording(locale, "usage limit reached", "额度用完或被限流")
            } else {
                i18n::wording(locale, "rate limited or out of quota", "被限流或额度用完")
            },
            HttpFailureKind::Authentication => if relay {
                i18n::wording(locale, "not signed in", "没登录或登录态失效")
            } else {
                i18n::wording(locale, "authentication failed", "认证失败")
            },
            HttpFailureKind::EndpointUnavailable => i18n::wording(
                locale,
                "the endpoint does not serve this model",
                "这个端点没有这个模型",
            ),
            HttpFailureKind::EndpointIncompatible => i18n::wording(
                locale,
                "the endpoint does not accept this request shape",
                "这个端点不认这种请求",
            ),
            HttpFailureKind::InvalidRequest => i18n::wording(
                locale,
                "the request was rejected",
                "请求被拒",
            ),
            HttpFailureKind::ContentPolicy => i18n::wording(
                locale,
                "the provider's content policy blocked this prompt",
                "供应商的内容策略拦下了这条提示词",
            ),
            HttpFailureKind::ContextOverflow => i18n::wording(
                locale,
                "the conversation is longer than the model's context window",
                "对话超出了模型的上下文窗口",
            ),
            HttpFailureKind::Quota => i18n::wording(
                locale,
                "out of balance or quota",
                "余额或额度用完",
            ),
            HttpFailureKind::Status => i18n::wording(
                locale,
                "the provider returned an error",
                "供应商报错",
            ),
        }
    }

    /// What happened, in a few words.
    pub fn label(self, relay: bool, locale: Locale) -> (words: &'static str)
        ensures
            words == self.words(relay, locale),
    {
        match self {
            HttpFailureKind::RateLimit => if relay {
                text_for(locale, "usage limit reached", "额度用完或被限流")
            } else {
                text_for(locale, "rate limited or out of quota", "被限流或额度用完")
            },
            HttpFailureKind::Authentication => if relay {
                text_for(locale, "not signed in", "没登录或登录态失效")
            } else {
                text_for(locale, "authentication failed", "认证失败")
            },
            HttpFailureKind::EndpointUnavailable => text_for(
                locale,
                "the endpoint does not serve this model",
                "这个端点没有这个模型",
            ),
            HttpFailureKind::EndpointIncompatible => text_for(
                locale,
                "the endpoint does not accept this request shape",
                "这个端点不认这种请求",
            ),
            HttpFailureKind::InvalidRequest => text_for(
                locale,
                "the request was rejected",
                "请求被拒",
            ),
            HttpFailureKind::ContentPolicy => text_for(
                locale,
                "the provider's content policy blocked this prompt",
                "供应商的内容策略拦下了这条提示词",
            ),
            HttpFailureKind::ContextOverflow => text_for(
                locale,
                "the conversation is longer than the model's context window",
                "对话超出了模型的上下文窗口",
            ),
            HttpFailureKind::Quota => text_for(
                locale,
                "out of balance or quota",
                "余额或额度用完",
            ),
            HttpFailureKind::Status => text_for(
                locale,
                "the provider returned an error",
                "供应商报错",
            ),
        }
    }

    /// The name of the class in logs.
    pub open spec fn tag(self) -> &'static str {
        match self {
            HttpFailureKind::Status => "status",
            HttpFailureKind::Authentication => "authentication",
            HttpFailureKind::RateLimit => "rate_limit",
            HttpFailureKind::EndpointUnavailable => "endpoint_unavailable",
            HttpFailureKind::EndpointIncompatible => "endpoint_incompatible",
            HttpFailureKind::InvalidRequest => "invalid_request",
            HttpFailureKind::ContentPolicy => "content_policy",
            HttpFailureKind::ContextOverflow => "context_overflow",
            HttpFailureKind::Quota => "quota",
        }
    }

    /// The name of the class in logs.
    pub fn name(self) -> (tag: &'static str)
        ensures
            tag == self.tag(),
    {
        match self {
            HttpFailureKind::Status => "status",
            HttpFailureKind::Authentication => "authentication",
            HttpFailureKind::RateLimit => "rate_limit",
            HttpFailureKind::EndpointUnavailable => "endpoint_unavailable",
            HttpFailureKind::EndpointIncompatible => "endpoint_incompatible",
            HttpFailureKind::InvalidRequest => "invalid_request",
            HttpFailureKind::ContentPolicy => "content_policy",
            HttpFailureKind::ContextOverflow => "context_overflow",
            HttpFailureKind::Quota => "quota",
        }
    }
}

// ---------------------------------------------------------------------------
// A failed response
// ---------------------------------------------------------------------------

/// A response with a status that says failure.
#[derive(Debug)]
pub struct HttpStatusFailure {
    pub status: u16,
    pub kind: HttpFailureKind,
    /// Whether the status was read off a command's output: no HTTP request was
    /// made, so the number is not shown.
    pub relay: bool,
    /// What the provider itself says, on one line.
    pub detail: Option<String>,
    /// How long the server asks to wait, in nanoseconds.
    pub retry_after: Option<u128>,
}

/// The class of a response with `status` and `body`. `overflow` says that the
/// body reads as a conversation too long for the model.
pub open spec fn kind_of(
    status: u16,
    body: Seq<char>,
    overflow: bool,
    class: Option<HttpFailureKind>,
) -> HttpFailureKind {
    if status == 401 || status == 403 {
        HttpFailureKind::Authentication
    } else if status == 402 {
        HttpFailureKind::Quota
    } else if status == 429 {
        if holds_any(snake_case(body), quota_signals()) {
            HttpFailureKind::Quota
        } else {
            HttpFailureKind::RateLimit
        }
    } else if status == 404 {
        HttpFailureKind::EndpointUnavailable
    } else if status == 408 || 500 <= status <= 599 {
        HttpFailureKind::Status
    } else if 400 <= status <= 499 && overflow {
        HttpFailureKind::ContextOverflow
    } else {
        match class {
            Some(kind) => kind,
            None => HttpFailureKind::Status,
        }
    }
}

impl HttpStatusFailure {
    /// A failure read off a command's output.
    pub fn relay(status: u16, kind: HttpFailureKind) -> (out: Self)
        ensures
            out == (HttpStatusFailure { status, kind, relay: true, detail: None, retry_after: None }),
    {
        HttpStatusFailure { status, kind, relay: true, detail: None, retry_after: None }
    }

    /// The failure with what its headers say about waiting.
    pub fn with_retry_after(self, retry_after: Option<u128>) -> (out: Self)
        ensures
            out == (HttpStatusFailure { retry_after, ..self }),
    {
        HttpStatusFailure {
            status: self.status,
            kind: self.kind,
            relay: self.relay,
            detail: self.detail,
            retry_after,
        }
    }

    /// The failure that a response with `status` and `body` is.
    pub fn classify(status: u16, body: &str, overflow: bool) -> (out: Self)
        ensures
            out.status == status,
            out.kind == kind_of(
                status,
                body@,
                overflow,
                class_of(body_signals(body@, reported_error(body@))),
            ),
            !out.relay,
            json::opt_text(out.detail) == clipped(provider_words(body@, reported_error(body@))),
            out.retry_after is None,
    {
        let error = read_error(body);
        Self::classify_error(status, body, overflow, &error)
    }

    /// The failure that a response with `status` and `body` is, where the body
    /// reports `error`.
    pub fn classify_error(
        status: u16,
        body: &str,
        overflow: bool,
        error: &Option<JsonShape>,
    ) -> (out: Self)
        ensures
            out.status == status,
            out.kind == kind_of(
                status,
                body@,
                overflow,
                class_of(
                    body_signals(
                        body@,
                        match error {
                            Some(e) => Some(e@),
                            None => None,
                        },
                    ),
                ),
            ),
            !out.relay,
            json::opt_text(out.detail) == clipped(
                provider_words(
                    body@,
                    match error {
                        Some(e) => Some(e@),
                        None => None,
                    },
                ),
            ),
            out.retry_after is None,
    {
        let kind = if status == 401 || status == 403 {
            HttpFailureKind::Authentication
        } else if status == 402 {
            HttpFailureKind::Quota
        } else if status == 429 {
            if quota_exhausted(body) {
                HttpFailureKind::Quota
            } else {
                HttpFailureKind::RateLimit
            }
        } else if status == 404 {
            HttpFailureKind::EndpointUnavailable
        } else if status == 408 || (500 <= status && status <= 599) {
            HttpFailureKind::Status
        } else if 400 <= status && status <= 499 && overflow {
            HttpFailureKind::ContextOverflow
        } else {
            match classify_signals(&error_signals(body, error)) {
                Some(kind) => kind,
                None => HttpFailureKind::Status,
            }
        };
        HttpStatusFailure {
            status,
            kind,
            relay: false,
            detail: message_in(body, error),
            retry_after: None,
        }
    }

    /// The line that people see: what happened, the status unless it was made
    /// up, and what the provider says.
    pub open spec fn sentence(self, locale: Locale) -> Seq<char> {
        let label = self.kind.words(self.relay, locale)@;
        let head = if self.relay {
            label
        } else {
            label + "（HTTP "@ + text::decimal(self.status as nat) + "）"@
        };
        match self.detail {
            Some(detail) => head + "："@ + detail@,
            None => head,
        }
    }

    /// The line that people see.
    pub fn describe(&self, locale: Locale) -> (line: String)
        ensures
            line@ == self.sentence(locale),
    {
        let mut line = self.kind.label(self.relay, locale).to_owned();
        if !self.relay {
            line.append("（HTTP ");
            push_decimal(&mut line, self.status as u64);
            line.append("）");
        }
        if let Some(detail) = &self.detail {
            line.append("：");
            line.append(detail.as_str());
        }
        line
    }
}

/// The longest wait a server may ask for that is waited out in place: twenty
/// seconds.
pub const HONORED_RETRY_AFTER_MAX: u128 = 20_000_000_000;

/// How long to wait before trying the same endpoint again: a short wait that
/// the server asked for when it limited the rate.
pub fn retry_after_to_honor(failure: &HttpStatusFailure) -> (wait: Option<u128>)
    ensures
        wait == (if failure.kind == HttpFailureKind::RateLimit && failure.retry_after is Some
            && failure.retry_after->Some_0 <= HONORED_RETRY_AFTER_MAX {
            failure.retry_after
        } else {
            None
        }),
{
    if failure.kind != HttpFailureKind::RateLimit {
        return None;
    }
    match failure.retry_after {
        Some(wait) => if wait <= HONORED_RETRY_AFTER_MAX {
            Some(wait)
        } else {
            None
        },
        None => None,
    }
}

/// What a header that may hold a number holds.
#[derive(Debug, Clone, Copy, PartialEq, Eq, Structural)]
pub enum HeaderNumber {
    /// No header, or no number in it.
    Absent,
    /// A number that is no length of time.
    Unusable,
    /// A length of time in nanoseconds.
    Nanos(u128),
}

/// How long a server asks to wait, by its headers: `millis` is what
/// `retry-after-ms` holds, `value` the text of `retry-after` and `seconds` the
/// number in it. The number of milliseconds comes first, and the text is read
/// as a date only where it holds no number; `date` is the wait until that
/// date.
pub open spec fn requested_wait(
    millis: HeaderNumber,
    value: Option<Seq<char>>,
    seconds: HeaderNumber,
    date: Option<u128>,
) -> Option<u128> {
    match (millis, value, seconds) {
        (HeaderNumber::Nanos(n), _, _) => Some(n),
        (_, None, _) => None,
        (_, Some(_), HeaderNumber::Nanos(n)) => Some(n),
        (_, Some(_), HeaderNumber::Unusable) => None,
        (_, Some(_), HeaderNumber::Absent) => date,
    }
}

/// How long a server asks to wait, in nanoseconds, with the current time read
/// from the clock where the headers name a date.
pub fn parse_retry_after(
    millis: HeaderNumber,
    value: Option<&str>,
    seconds: HeaderNumber,
) -> (wait: Option<u128>)
    ensures
        exists|at_now: Moment|
            #![trigger retry_date(value, at_now)]
            wait == requested_wait(
                millis,
                match value {
                    Some(v) => Some(v@),
                    None => None,
                },
                seconds,
                retry_date(value, at_now),
            ),
{
    let moment = now();
    let wait = retry_after_at(millis, value, seconds, moment);
    assert(retry_date(value, moment) == retry_date(value, moment));
    wait
}

/// The wait from `at_now` until the date that `value` names.
pub open spec fn retry_date(value: Option<&str>, at_now: Moment) -> Option<u128> {
    match value {
        Some(v) => match clock::rfc2822_moment(v@) {
            Some(at) => Some(clock::nanos_until(at, at_now) as u128),
            None => None,
        },
        None => None,
    }
}

/// How long a server asks to wait, in nanoseconds, at the time `at_now`.
pub fn retry_after_at(
    millis: HeaderNumber,
    value: Option<&str>,
    seconds: HeaderNumber,
    at_now: Moment,
) -> (wait: Option<u128>)
    ensures
        wait == requested_wait(
            millis,
            match value {
                Some(v) => Some(v@),
                None => None,
            },
            seconds,
            retry_date(value, at_now),
        ),
{
    if let HeaderNumber::Nanos(n) = millis {
        return Some(n);
    }
    match value {
        None => None,
        Some(v) => match seconds {
            HeaderNumber::Nanos(n) => Some(n),
            HeaderNumber::Unusable => None,
            HeaderNumber::Absent => match read_rfc2822(v) {
                Some(at) => Some(wait_until(at, at_now)),
                None => None,
            },
        },
    }
}

// ---------------------------------------------------------------------------
// Retrying
// ---------------------------------------------------------------------------

/// How many milliseconds pass before a request that did not get through is
/// sent again.
pub const TRANSPORT_RETRY_DELAY: u64 = 250;

/// How many times a request is sent to an endpoint it cannot reach.
pub const MAX_SEND_ATTEMPTS: usize = 3;

/// How many attempts a request gets at least, however few endpoints there are.
pub const MIN_ENDPOINT_ATTEMPTS: usize = 3;

#[derive(Debug, Clone, Copy, PartialEq, Eq, Structural)]
pub enum TransportFailureKind {
    Connect,
    Timeout,
    Other,
}

impl TransportFailureKind {
    /// The name of the kind in logs.
    pub open spec fn tag(self) -> &'static str {
        match self {
            TransportFailureKind::Connect => "connect",
            TransportFailureKind::Timeout => "timeout",
            TransportFailureKind::Other => "request",
        }
    }

    /// The name of the kind in logs.
    pub fn name(self) -> (tag: &'static str)
        ensures
            tag == self.tag(),
    {
        match self {
            TransportFailureKind::Connect => "connect",
            TransportFailureKind::Timeout => "timeout",
            TransportFailureKind::Other => "request",
        }
    }
}

/// A request that got no response.
#[derive(Debug)]
pub struct TransportFailure {
    pub stage: String,
    pub kind: TransportFailureKind,
}

impl TransportFailure {
    /// The line that people see.
    pub fn describe(&self) -> (line: String)
        ensures
            line@ == self.stage@ + " transport failed ("@ + self.kind.tag()@ + ")"@,
    {
        let mut line = self.stage.clone();
        line.append(" transport failed (");
        line.append(self.kind.name());
        line.append(")");
        line
    }
}

/// Only a connection that was never made is tried again.
pub fn retryable_transport_failure(kind: TransportFailureKind) -> (r: bool)
    ensures
        r == (kind == TransportFailureKind::Connect),
{
    kind == TransportFailureKind::Connect
}

/// Only a failure on the server's side is tried again.
pub fn retryable_http_status(status: u16) -> (r: bool)
    ensures
        r == (500 <= status <= 599),
{
    500 <= status && status <= 599
}

/// Two seconds, doubled `times` times.
pub open spec fn doubled(times: nat) -> nat
    decreases times,
{
    if times == 0 {
        2
    } else {
        2 * doubled((times - 1) as nat)
    }
}

/// The seconds to wait before attempt number `attempt` is repeated: two,
/// doubled for each further attempt up to six times, two minutes at most.
pub open spec fn retry_delay(attempt: nat) -> nat {
    let times: nat = if attempt <= 1 {
        0
    } else if attempt >= 7 {
        6
    } else {
        (attempt - 1) as nat
    };
    if doubled(times) > 120 {
        120
    } else {
        doubled(times)
    }
}

/// The seconds to wait before attempt number `attempt` is repeated.
pub fn http_status_retry_delay(attempt: usize) -> (secs: u64)
    ensures
        secs == retry_delay(attempt as nat),
{
    proof {
        reveal_with_fuel(doubled, 8);
    }
    if attempt <= 1 {
        2
    } else if attempt == 2 {
        4
    } else if attempt == 3 {
        8
    } else if attempt == 4 {
        16
    } else if attempt == 5 {
        32
    } else if attempt == 6 {
        64
    } else {
        120
    }
}

/// The messages of an error and of what caused it, outermost first, in one
/// line.
pub open spec fn chained(messages: Seq<Seq<char>>) -> Seq<char>
    decreases messages.len(),
{
    if messages.len() == 0 {
        Seq::empty()
    } else if messages.len() == 1 {
        messages[0]
    } else {
        chained(messages.drop_last()) + ": "@ + messages.last()
    }
}

/// The messages of an error and of what caused it in one line.
pub fn format_error_chain(messages: &Vec<String>) -> (line: String)
    ensures
        line@ == chained(json::texts(messages@)),
{
    let ghost all = json::texts(messages@);
    if messages.len() == 0 {
        return String::new();
    }
    let mut line = messages[0].clone();
    let mut i: usize = 1;
    proof {
        assert(all.take(1).len() == 1);
        assert(all.take(1)[0] == line@);
    }
    while i < messages.len()
        invariant
            1 <= i <= messages@.len(),
            all == json::texts(messages@),
            line@ == chained(all.take(i as int)),
        decreases messages@.len() - i,
    {
        line.append(": ");
        line.append(messages[i].as_str());
        proof {
            assert(all.take(i + 1).drop_last() =~= all.take(i as int));
            assert(all.take(i + 1).last() == messages@[i as int]@);
        }
        i += 1;
    }
    assert(all.take(all.len() as int) =~= all);
    line
}

// ---------------------------------------------------------------------------
// Features an endpoint turns down
// ---------------------------------------------------------------------------

/// Whether a response says that the endpoint does not know `thinking`.
pub fn anthropic_thinking_unsupported(status: u16, body: &str) -> (r: bool)
    ensures
        r == ((status == 400 || status == 422) && text::contains(text::lower(body@), "thinking"@)
            && holds_any(
            text::lower(body@),
            seq!["unsupported", "not supported", "unknown", "invalid", "unrecognized"],
        )),
{
    if status != 400 && status != 422 {
        return false;
    }
    let body = lowered(body);
    let words = ["unsupported", "not supported", "unknown", "invalid", "unrecognized"];
    assert(words@ =~= seq!["unsupported", "not supported", "unknown", "invalid", "unrecognized"]);
    holds(&body, "thinking") && contains_any(&body, &words)
}

/// Whether a response says that the endpoint has no responses interface.
pub fn responses_unsupported(status: u16, body: &str) -> (r: bool)
    ensures
        r == (status == 404 || status == 405 || (status == 400 && holds_any(
            text::lower(body@),
            seq![
                "unsupported",
                "not supported",
                "unknown parameter",
                "invalid endpoint",
                "not found",
            ],
        ))),
{
    if status == 404 || status == 405 {
        return true;
    }
    if status != 400 {
        return false;
    }
    let words = [
        "unsupported",
        "not supported",
        "unknown parameter",
        "invalid endpoint",
        "not found",
    ];
    assert(words@ =~= seq![
        "unsupported",
        "not supported",
        "unknown parameter",
        "invalid endpoint",
        "not found",
    ]);
    contains_any(&lowered(body), &words)
}

/// Whether a response says that the endpoint does not know `stream_options`.
pub fn stream_options_unsupported(status: u16, body: &str) -> (r: bool)
    ensures
        r == ((status == 400 || status == 422) && text::contains(
            text::lower(body@),
            "stream_options"@,
        ) && holds_any(
            text::lower(body@),
            seq!["unsupported", "not supported", "unknown", "unrecognized", "invalid", "extra"],
        )),
{
    if status != 400 && status != 422 {
        return false;
    }
    let body = lowered(body);
    let words = ["unsupported", "not supported", "unknown", "unrecognized", "invalid", "extra"];
    assert(words@ =~= seq![
        "unsupported",
        "not supported",
        "unknown",
        "unrecognized",
        "invalid",
        "extra",
    ]);
    holds(&body, "stream_options") && contains_any(&body, &words)
}

/// Whether a streamed request that met a used-up quota is worth a try without
/// streaming.
pub fn non_stream_quota_fallback_candidate(status: u16, body: &str) -> (r: bool)
    ensures
        r == (status == 429 && text::contains(text::lower(body@), "insufficient_quota"@)),
{
    status == 429 && holds(&lowered(body), "insufficient_quota")
}

/// Whether a Zen endpoint says that the provider behind it failed.
pub fn zen_upstream_failed(zen_endpoint: bool, status: u16, body: &str) -> (r: bool)
    ensures
        r == (status == 400 && zen_endpoint && text::contains(
            text::lower(body@),
            "upstream request failed"@,
        )),
{
    status == 400 && zen_endpoint && holds(&lowered(body), "upstream request failed")
}

// ---------------------------------------------------------------------------
// Laws
// ---------------------------------------------------------------------------

/// A text in snake case: lower-case letters, digits and single `_` between
/// them.
pub open spec fn is_snake(s: Seq<char>) -> bool {
    &&& forall|i: int|
        0 <= i < s.len() ==> #[trigger] text::is_lower(s[i]) || text::is_digit(s[i]) || s[i] == '_'
    &&& s.len() > 0 ==> s[0] != '_' && s.last() != '_'
    &&& forall|i: int| 0 < i < s.len() && #[trigger] s[i] == '_' ==> s[i - 1] != '_'
}

proof fn lemma_snake_prefix_shape(s: Seq<char>, n: int)
    requires
        0 <= n <= s.len(),
    ensures
        ({
            let t = snake_prefix(s, n);
            &&& forall|i: int|
                0 <= i < t.len() ==> #[trigger] text::is_lower(t[i]) || text::is_digit(t[i]) || t[i]
                    == '_'
            &&& t.len() > 0 ==> t[0] != '_'
            &&& forall|i: int| 0 < i < t.len() && #[trigger] t[i] == '_' ==> t[i - 1] != '_'
        }),
    decreases n,
{
    if n > 0 {
        lemma_snake_prefix_shape(s, n - 1);
    }
}

proof fn lemma_snake_prefix_fixed(s: Seq<char>, n: int)
    requires
        is_snake(s),
        0 <= n <= s.len(),
    ensures
        snake_prefix(s, n) == s.take(n),
    decreases n,
{
    if n > 0 {
        lemma_snake_prefix_fixed(s, n - 1);
        assert(text::is_lower(s[n - 1]) || text::is_digit(s[n - 1]) || s[n - 1] == '_');
        if n > 1 {
            assert(s.take(n - 1).last() == s[n - 2]);
        }
        assert(s.take(n) =~= s.take(n - 1).push(s[n - 1]));
    } else {
        assert(s.take(0) =~= Seq::<char>::empty());
    }
}

/// Every signal is in snake case.
pub proof fn snake_case_is_snake(s: Seq<char>)
    ensures
        is_snake(snake_case(s)),
{
    lemma_snake_prefix_shape(s, s.len() as int);
}

/// Normalizing a signal again changes nothing.
pub proof fn snake_case_is_idempotent(s: Seq<char>)
    ensures
        snake_case(snake_case(s)) == snake_case(s),
{
    let t = snake_case(s);
    snake_case_is_snake(s);
    lemma_snake_prefix_fixed(t, t.len() as int);
    assert(t.take(t.len() as int) =~= t);
}

/// A limited rate is never taken for a conversation too long, however the body
/// words it.
pub proof fn rate_limits_are_not_overflow(
    body: Seq<char>,
    overflow: bool,
    class: Option<HttpFailureKind>,
)
    ensures
        kind_of(429, body, overflow, class) == HttpFailureKind::Quota || kind_of(
            429,
            body,
            overflow,
            class,
        ) == HttpFailureKind::RateLimit,
{
}

/// Waiting grows from attempt to attempt and stays within two seconds and two
/// minutes.
pub proof fn retry_delay_grows(earlier: nat, later: nat)
    requires
        earlier <= later,
    ensures
        2 <= retry_delay(earlier) <= retry_delay(later) <= 120,
{
    reveal_with_fuel(doubled, 8);
}

/// Whether a signal says that the caller is not let in.
pub open spec fn tells_authentication(s: Seq<char>) -> bool {
    ||| text::contains(s, "invalid_api_key"@)
    ||| text::contains(s, "incorrect_api_key"@)
    ||| text::contains(s, "authentication"@)
    ||| text::contains(s, "unauthorized"@)
    ||| text::contains(s, "forbidden"@)
    ||| text::contains(s, "permission_denied"@)
}

/// Whether a signal says that the account has nothing left.
pub open spec fn tells_quota(s: Seq<char>) -> bool {
    ||| text::contains(s, "insufficient_quota"@)
    ||| text::contains(s, "insufficient_balance"@)
    ||| text::contains(s, "exceeded_current_quota"@)
    ||| text::contains(s, "billing_hard_limit"@)
    ||| text::contains(s, "payment_required"@)
    ||| text::contains(s, "insufficient_credit"@)
    ||| text::contains(s, "out_of_credit"@)
}

/// Whether a signal says that the rate is limited.
pub open spec fn tells_rate(s: Seq<char>) -> bool {
    ||| text::contains(s, "rate_limit"@)
    ||| text::contains(s, "ratelimit"@)
    ||| text::contains(s, "quota"@)
    ||| text::contains(s, "too_many_requests"@)
}

/// Whether a signal says that the endpoint does not serve the model.
pub open spec fn tells_unavailable(s: Seq<char>) -> bool {
    ||| text::contains(s, "model_not_found"@)
    ||| text::contains(s, "model_not_available"@)
    ||| text::contains(s, "model_unavailable"@)
    ||| text::contains(s, "unsupported_model"@)
    ||| text::contains(s, "deployment_not_found"@)
    ||| text::contains(s, "model_access_denied"@)
    ||| text::contains(s, "no_available_provider"@)
    ||| text::contains(s, "not_found"@)
    ||| text::contains(s, "provider_unavailable"@)
    ||| text::contains(s, "upstream_request_failed"@)
    ||| text::contains(s, "service_unavailable"@)
    ||| text::contains(s, "overloaded"@)
}

/// Whether a signal says that the conversation is too long.
pub open spec fn tells_overflow(s: Seq<char>) -> bool {
    ||| text::contains(s, "context_length_exceeded"@)
    ||| text::contains(s, "context_window_exceeded"@)
    ||| text::contains(s, "maximum_context_length"@)
    ||| text::contains(s, "model_context_window_exceeded"@)
}

/// Whether a signal says that the endpoint does not know the form of the request.
pub open spec fn tells_incompatible(s: Seq<char>) -> bool {
    ||| text::contains(s, "context_length"@)
    ||| text::contains(s, "context_window"@)
    ||| text::contains(s, "max_tokens"@)
    ||| text::contains(s, "unsupported_parameter"@)
    ||| text::contains(s, "unknown_parameter"@)
    ||| text::contains(s, "unsupported_feature"@)
    ||| text::contains(s, "not_supported"@)
}

/// Whether a signal says that the request is wrong.
pub open spec fn tells_invalid(s: Seq<char>) -> bool {
    ||| text::contains(s, "invalid_request"@)
    ||| text::contains(s, "invalid_argument"@)
    ||| text::contains(s, "malformed"@)
    ||| text::contains(s, "validation_error"@)
}

proof fn lemma_tells_authentication(s: Seq<char>)
    ensures
        holds_any(s, authentication_signals()) <==> tells_authentication(s),
{
    let words = authentication_signals();
    assert(words.len() == 6);
    assert(words[0]@ == "invalid_api_key"@);
    assert(words[1]@ == "incorrect_api_key"@);
    assert(words[2]@ == "authentication"@);
    assert(words[3]@ == "unauthorized"@);
    assert(words[4]@ == "forbidden"@);
    assert(words[5]@ == "permission_denied"@);
    if holds_any(s, words) {
        let i = choose|i: int| 0 <= i < words.len() && text::contains(s, #[trigger] words[i]@);
        assert(i == 0 || i == 1 || i == 2 || i == 3 || i == 4 || i == 5);
    }
}

proof fn lemma_tells_quota(s: Seq<char>)
    ensures
        holds_any(s, quota_signals()) <==> tells_quota(s),
{
    let words = quota_signals();
    assert(words.len() == 7);
    assert(words[0]@ == "insufficient_quota"@);
    assert(words[1]@ == "insufficient_balance"@);
    assert(words[2]@ == "exceeded_current_quota"@);
    assert(words[3]@ == "billing_hard_limit"@);
    assert(words[4]@ == "payment_required"@);
    assert(words[5]@ == "insufficient_credit"@);
    assert(words[6]@ == "out_of_credit"@);
    if holds_any(s, words) {
        let i = choose|i: int| 0 <= i < words.len() && text::contains(s, #[trigger] words[i]@);
        assert(i == 0 || i == 1 || i == 2 || i == 3 || i == 4 || i == 5 || i == 6);
    }
}

proof fn lemma_tells_rate(s: Seq<char>)
    ensures
        holds_any(s, rate_limit_signals()) <==> tells_rate(s),
{
    let words = rate_limit_signals();
    assert(words.len() == 4);
    assert(words[0]@ == "rate_limit"@);
    assert(words[1]@ == "ratelimit"@);
    assert(words[2]@ == "quota"@);
    assert(words[3]@ == "too_many_requests"@);
    if holds_any(s, words) {
        let i = choose|i: int| 0 <= i < words.len() && text::contains(s, #[trigger] words[i]@);
        assert(i == 0 || i == 1 || i == 2 || i == 3);
    }
}

proof fn lemma_tells_unavailable(s: Seq<char>)
    ensures
        holds_any(s, unavailable_signals()) <==> tells_unavailable(s),
{
    let words = unavailable_signals();
    assert(words.len() == 12);
    assert(words[0]@ == "model_not_found"@);
    assert(words[1]@ == "model_not_available"@);
    assert(words[2]@ == "model_unavailable"@);
    assert(words[3]@ == "unsupported_model"@);
    assert(words[4]@ == "deployment_not_found"@);
    assert(words[5]@ == "model_access_denied"@);
    assert(words[6]@ == "no_available_provider"@);
    assert(words[7]@ == "not_found"@);
    assert(words[8]@ == "provider_unavailable"@);
    assert(words[9]@ == "upstream_request_failed"@);
    assert(words[10]@ == "service_unavailable"@);
    assert(words[11]@ == "overloaded"@);
    if holds_any(s, words) {
        let i = choose|i: int| 0 <= i < words.len() && text::contains(s, #[trigger] words[i]@);
        assert(i == 0 || i == 1 || i == 2 || i == 3 || i == 4 || i == 5 || i == 6 || i == 7 || i == 8 || i == 9 || i == 10 || i == 11);
    }
}

proof fn lemma_tells_overflow(s: Seq<char>)
    ensures
        holds_any(s, overflow_signals()) <==> tells_overflow(s),
{
    let words = overflow_signals();
    assert(words.len() == 4);
    assert(words[0]@ == "context_length_exceeded"@);
    assert(words[1]@ == "context_window_exceeded"@);
    assert(words[2]@ == "maximum_context_length"@);
    assert(words[3]@ == "model_context_window_exceeded"@);
    if holds_any(s, words) {
        let i = choose|i: int| 0 <= i < words.len() && text::contains(s, #[trigger] words[i]@);
        assert(i == 0 || i == 1 || i == 2 || i == 3);
    }
}

proof fn lemma_tells_incompatible(s: Seq<char>)
    ensures
        holds_any(s, incompatible_signals()) <==> tells_incompatible(s),
{
    let words = incompatible_signals();
    assert(words.len() == 7);
    assert(words[0]@ == "context_length"@);
    assert(words[1]@ == "context_window"@);
    assert(words[2]@ == "max_tokens"@);
    assert(words[3]@ == "unsupported_parameter"@);
    assert(words[4]@ == "unknown_parameter"@);
    assert(words[5]@ == "unsupported_feature"@);
    assert(words[6]@ == "not_supported"@);
    if holds_any(s, words) {
        let i = choose|i: int| 0 <= i < words.len() && text::contains(s, #[trigger] words[i]@);
        assert(i == 0 || i == 1 || i == 2 || i == 3 || i == 4 || i == 5 || i == 6);
    }
}

proof fn lemma_tells_invalid(s: Seq<char>)
    ensures
        holds_any(s, invalid_request_signals()) <==> tells_invalid(s),
{
    let words = invalid_request_signals();
    assert(words.len() == 4);
    assert(words[0]@ == "invalid_request"@);
    assert(words[1]@ == "invalid_argument"@);
    assert(words[2]@ == "malformed"@);
    assert(words[3]@ == "validation_error"@);
    if holds_any(s, words) {
        let i = choose|i: int| 0 <= i < words.len() && text::contains(s, #[trigger] words[i]@);
        assert(i == 0 || i == 1 || i == 2 || i == 3);
    }
}

/// Whether one of some signals tells something.
pub open spec fn told(signals: Seq<String>, tells: spec_fn(Seq<char>) -> bool) -> bool {
    exists|i: int| 0 <= i < signals.len() && tells((#[trigger] signals[i])@)
}

proof fn lemma_told(signals: Seq<String>, words: Seq<&'static str>, tells: spec_fn(Seq<char>) -> bool)
    requires
        forall|s: Seq<char>| #[trigger] tells(s) <==> holds_any(s, words),
    ensures
        told(signals, tells) <==> signalled(json::texts(signals), words),
{
    let all = json::texts(signals);
    if told(signals, tells) {
        let i = choose|i: int| 0 <= i < signals.len() && tells((#[trigger] signals[i])@);
        assert(all[i] == signals[i]@);
        assert(holds_any(all[i], words));
    }
    if signalled(all, words) {
        let i = choose|i: int| 0 <= i < all.len() && holds_any(#[trigger] all[i], words);
        assert(all[i] == signals[i]@);
        assert(tells(signals[i]@));
    }
}

/// Signals stand for a class exactly where one of them holds a word of it, and
/// none holds a word of a class that comes before it: not being let in, nothing
/// left, a limited rate, no such model, too long, another form, a wrong request.
pub proof fn a_class_is_known_by_its_words(signals: &Vec<String>, kind: Option<HttpFailureKind>)
    requires
        call_ensures(classify_signals, (signals,), kind),
    ensures
        ({
            let authentication = told(signals@, |s: Seq<char>| tells_authentication(s));
            let quota = told(signals@, |s: Seq<char>| tells_quota(s));
            let rate = told(signals@, |s: Seq<char>| tells_rate(s));
            let unavailable = told(signals@, |s: Seq<char>| tells_unavailable(s));
            let overflow = told(signals@, |s: Seq<char>| tells_overflow(s));
            let incompatible = told(signals@, |s: Seq<char>| tells_incompatible(s));
            let invalid = told(signals@, |s: Seq<char>| tells_invalid(s));
            &&& kind == Some(HttpFailureKind::Authentication) <==> authentication
            &&& kind == Some(HttpFailureKind::Quota) <==> quota && !authentication
            &&& kind == Some(HttpFailureKind::RateLimit) <==> rate && !quota && !authentication
            &&& kind == Some(HttpFailureKind::EndpointUnavailable) <==> unavailable && !rate
                && !quota && !authentication
            &&& kind == Some(HttpFailureKind::ContextOverflow) <==> overflow && !unavailable
                && !rate && !quota && !authentication
            &&& kind == Some(HttpFailureKind::EndpointIncompatible) <==> incompatible && !overflow
                && !unavailable && !rate && !quota && !authentication
            &&& kind == Some(HttpFailureKind::InvalidRequest) <==> invalid && !incompatible
                && !overflow && !unavailable && !rate && !quota && !authentication
            &&& kind is None <==> !invalid && !incompatible && !overflow && !unavailable && !rate
                && !quota && !authentication
        }),
{
    assert forall|s: Seq<char>| #[trigger] tells_authentication(s) <==> holds_any(s, authentication_signals()) by {
        lemma_tells_authentication(s);
    }
    lemma_told(signals@, authentication_signals(), |s: Seq<char>| tells_authentication(s));
    assert forall|s: Seq<char>| #[trigger] tells_quota(s) <==> holds_any(s, quota_signals()) by {
        lemma_tells_quota(s);
    }
    lemma_told(signals@, quota_signals(), |s: Seq<char>| tells_quota(s));
    assert forall|s: Seq<char>| #[trigger] tells_rate(s) <==> holds_any(s, rate_limit_signals()) by {
        lemma_tells_rate(s);
    }
    lemma_told(signals@, rate_limit_signals(), |s: Seq<char>| tells_rate(s));
    assert forall|s: Seq<char>| #[trigger] tells_unavailable(s) <==> holds_any(s, unavailable_signals()) by {
        lemma_tells_unavailable(s);
    }
    lemma_told(signals@, unavailable_signals(), |s: Seq<char>| tells_unavailable(s));
    assert forall|s: Seq<char>| #[trigger] tells_overflow(s) <==> holds_any(s, overflow_signals()) by {
        lemma_tells_overflow(s);
    }
    lemma_told(signals@, overflow_signals(), |s: Seq<char>| tells_overflow(s));
    assert forall|s: Seq<char>| #[trigger] tells_incompatible(s) <==> holds_any(s, incompatible_signals()) by {
        lemma_tells_incompatible(s);
    }
    lemma_told(signals@, incompatible_signals(), |s: Seq<char>| tells_incompatible(s));
    assert forall|s: Seq<char>| #[trigger] tells_invalid(s) <==> holds_any(s, invalid_request_signals()) by {
        lemma_tells_invalid(s);
    }
    lemma_told(signals@, invalid_request_signals(), |s: Seq<char>| tells_invalid(s));
}

/// What the status alone decides, whatever the body says and whatever it is
/// taken for: 401 and 403 are a caller that is not let in, 402 an account that
/// has nothing left, 404 an endpoint without the model, 408 and the server's
/// own failures no class in particular. 429 is a limited rate, or an account
/// that has nothing left where the body says so.
pub proof fn a_status_decides(
    status: u16,
    body: &str,
    overflow: bool,
    error: &Option<JsonShape>,
    out: HttpStatusFailure,
)
    requires
        call_ensures(HttpStatusFailure::classify_error, (status, body, overflow, error), out),
    ensures
        out.status == status && !out.relay && out.retry_after is None,
        status == 401 || status == 403 ==> out.kind is Authentication,
        status == 402 ==> out.kind is Quota,
        status == 404 ==> out.kind is EndpointUnavailable,
        status == 408 || 500 <= status <= 599 ==> out.kind is Status,
        status == 429 && tells_quota(snake_case(body@)) ==> out.kind is Quota,
        status == 429 && !tells_quota(snake_case(body@)) ==> out.kind is RateLimit,
{
    lemma_tells_quota(snake_case(body@));
}

/// Whether the status alone decides.
pub open spec fn status_decides(status: u16) -> bool {
    status == 401 || status == 402 || status == 403 || status == 404 || status == 408 || status
        == 429 || 500 <= status <= 599
}

/// Where the status decides nothing, a conversation that is too long is one
/// under any status that blames the request, and any other failure is of the
/// class that the signals of the body stand for.
pub proof fn the_body_decides_the_rest(
    status: u16,
    body: &str,
    overflow: bool,
    error: &Option<JsonShape>,
    out: HttpStatusFailure,
    signals: Vec<String>,
    class: Option<HttpFailureKind>,
)
    requires
        call_ensures(HttpStatusFailure::classify_error, (status, body, overflow, error), out),
        call_ensures(error_signals, (body, error), signals),
        call_ensures(classify_signals, (&signals,), class),
        !status_decides(status),
    ensures
        overflow && 400 <= status <= 499 ==> out.kind is ContextOverflow,
        !(overflow && 400 <= status <= 499) && class is Some ==> Some(out.kind) == class,
        !(overflow && 400 <= status <= 499) && class is None ==> out.kind is Status,
{
}

/// A failure is a limited rate only under 429, or where the status decides
/// nothing and a signal of the body holds a word for it.
pub proof fn a_limited_rate_is_said(
    status: u16,
    body: &str,
    overflow: bool,
    error: &Option<JsonShape>,
    out: HttpStatusFailure,
    signals: Vec<String>,
)
    requires
        call_ensures(HttpStatusFailure::classify_error, (status, body, overflow, error), out),
        call_ensures(error_signals, (body, error), signals),
        out.kind is RateLimit,
    ensures
        status == 429 || !status_decides(status) && told(signals@, |s: Seq<char>| tells_rate(s)),
{
    assert forall|s: Seq<char>| #[trigger] tells_rate(s) <==> holds_any(s, rate_limit_signals()) by {
        lemma_tells_rate(s);
    }
    lemma_told(signals@, rate_limit_signals(), |s: Seq<char>| tells_rate(s));
}

/// One where an error has a text in a field, and else none.
pub open spec fn present(error: JsonView, field: Seq<char>) -> int {
    if json::member_text(error, field) is Some {
        1
    } else {
        0
    }
}

/// How many of the four fields that carry signals an error has.
pub open spec fn fields_of(error: JsonView) -> int {
    present(error, "code"@) + present(error, "type"@) + present(error, "status"@) + present(
        error,
        "message"@,
    )
}

/// The signals of a body are the texts of the error's code, type, status and
/// message, in that order, each where it is there, and the body itself where
/// none is.
pub proof fn signals_are_the_fields(
    body: &str,
    error: &Option<JsonShape>,
    e: JsonView,
    signals: Vec<String>,
)
    requires
        call_ensures(error_signals, (body, error), signals),
        *error is Some && error->0@ == e,
        fields_of(e) > 0,
    ensures
        signals@.len() == fields_of(e),
        json::member_text(e, "code"@) matches Some(code) ==> signals@[0]@ == snake_case(code),
        json::member_text(e, "type"@) matches Some(kind) ==> signals@[present(e, "code"@)]@
            == snake_case(kind),
        json::member_text(e, "status"@) matches Some(status) ==> signals@[signals@.len() - 1
            - present(e, "message"@)]@ == snake_case(status),
        json::member_text(e, "message"@) matches Some(message) ==> signals@.last()@ == snake_case(
            message,
        ),
{
    let all = json::texts(signals@);
    assert(all.len() == signals@.len());
    assert forall|i: int| 0 <= i < all.len() implies #[trigger] all[i] == signals@[i]@ by {}
    reveal_with_fuel(field_signals, 5);
    let f = signal_fields();
    assert(f[0]@ == "code"@ && f[1]@ == "type"@ && f[2]@ == "status"@ && f[3]@ == "message"@);
    let s1 = field_signals(e, 1);
    let s2 = field_signals(e, 2);
    let s3 = field_signals(e, 3);
    let s4 = field_signals(e, 4);
    assert(s4.len() == fields_of(e));
    assert(all == body_signals(body@, Some(e)));
    assert(all == s4);
    assert(s1 =~= s4.take(s1.len() as int) && s2 =~= s4.take(s2.len() as int) && s3 =~= s4.take(
        s3.len() as int,
    ));
    if json::member_text(e, "code"@) is Some {
        assert(s4[0] == s1.last());
    }
    if json::member_text(e, "type"@) is Some {
        assert(s4[s2.len() - 1] == s2.last());
    }
    if json::member_text(e, "status"@) is Some {
        assert(s4[s3.len() - 1] == s3.last());
    }
    if let Some(message) = json::member_text(e, "message"@) {
        assert(s4 == s3.push(snake_case(message)));
        assert(all[all.len() - 1] == signals@.last()@);
    }
}

/// Where no such field is there, or nothing is reported at all, the body is the
/// only signal.
pub proof fn the_body_is_the_signal(body: &str, error: &Option<JsonShape>, signals: Vec<String>)
    requires
        call_ensures(error_signals, (body, error), signals),
        *error is None || fields_of(error->0@) == 0,
    ensures
        signals@.len() == 1,
        signals@[0]@ == snake_case(body@),
{
    let all = json::texts(signals@);
    assert(all.len() == signals@.len());
    if let Some(e) = *error {
        reveal_with_fuel(field_signals, 5);
        let f = signal_fields();
        assert(f[0]@ == "code"@ && f[1]@ == "type"@ && f[2]@ == "status"@ && f[3]@ == "message"@);
        assert(field_signals(e@, 4).len() == fields_of(e@));
    }
    assert(all[0] == signals@[0]@);
}

/// What a failure says in detail is what the provider's message says, the
/// message of the error that the body reports where it reports one, and else
/// the whole body.
pub proof fn the_detail_is_the_message(
    status: u16,
    body: &str,
    overflow: bool,
    out: HttpStatusFailure,
    message: &str,
    line: Option<String>,
)
    requires
        call_ensures(HttpStatusFailure::classify, (status, body, overflow), out),
        call_ensures(clip_detail, (message,), line),
        match json::json_shape(body@) {
            None => message@ == body@,
            Some(shape) => match json::member(shape, "error"@) {
                None => message@ == match json::member_text(shape, "message"@) {
                    Some(text) => text,
                    None => body@,
                },
                Some(error) => match json::json_shape(error) {
                    None => message@ == body@,
                    Some(inner) => message@ == match json::member_text(inner, "message"@) {
                        Some(text) => text,
                        None => body@,
                    },
                },
            },
        },
    ensures
        out.detail is Some <==> line is Some,
        out.detail matches Some(detail) ==> line matches Some(line) ==> detail@ == line@,
{
}

/// A detail is one line of at most 120 characters and a mark that it was cut:
/// cut exactly where it is longer.
pub proof fn details_are_short(detail: &str, out: Option<String>)
    requires
        call_ensures(clip_detail, (detail,), out),
    ensures
        text::squeezed(detail@).len() == 0 <==> out is None,
        text::squeezed(detail@).len() <= 120 ==> (out matches Some(line) ==> line@
            == text::squeezed(detail@)),
        text::squeezed(detail@).len() > 120 ==> (out matches Some(line) && line@.len() == 121
            && line@[120] == '…' && forall|i: int|
            0 <= i < 120 ==> #[trigger] line@[i] == text::squeezed(detail@)[i]),
{
}

/// A wait that a server asks for is waited out exactly where it limits the rate
/// and asks for no more than twenty seconds.
pub proof fn short_waits_are_honored(failure: &HttpStatusFailure, wait: Option<u128>, nanos: u128)
    requires
        call_ensures(retry_after_to_honor, (failure,), wait),
    ensures
        wait == Some(nanos) <==> failure.kind is RateLimit && failure.retry_after == Some(nanos)
            && nanos <= 20_000_000_000,
{
}

/// The header with milliseconds is believed first. The other header is read as
/// a number of seconds, then as a date, from which a wait in the past is none
/// at all.
pub proof fn waits_are_read_in_order(
    millis: HeaderNumber,
    value: Option<&str>,
    seconds: HeaderNumber,
    at_now: Moment,
    wait: Option<u128>,
)
    requires
        call_ensures(retry_after_at, (millis, value, seconds, at_now), wait),
    ensures
        millis matches HeaderNumber::Nanos(n) ==> wait == Some(n),
        millis !is Nanos && value is None ==> wait is None,
        millis !is Nanos && value is Some ==> (seconds matches HeaderNumber::Nanos(n) ==> wait
            == Some(n)),
        millis !is Nanos && seconds is Unusable ==> wait is None,
        millis !is Nanos && value is Some && seconds is Absent ==> (wait is Some
            <==> clock::rfc2822_moment(value->0@) is Some),
{
}

/// Only what the server failed at, and what never reached it, is sent again.
pub proof fn only_server_failures_are_repeated(
    status: u16,
    again: bool,
    kind: TransportFailureKind,
    resend: bool,
)
    requires
        call_ensures(retryable_http_status, (status,), again),
        call_ensures(retryable_transport_failure, (kind,), resend),
    ensures
        again <==> status >= 500 && status < 600,
        resend <==> kind is Connect,
{
}

/// The first wait is two seconds, each of the next five is twice the one
/// before, and from the seventh on it is two minutes.
pub proof fn waits_double(attempt: usize, next: usize, wait: u64, then_wait: u64)
    requires
        next == attempt + 1,
        call_ensures(http_status_retry_delay, (attempt,), wait),
        call_ensures(http_status_retry_delay, (next,), then_wait),
    ensures
        attempt <= 1 ==> wait == 2,
        1 <= attempt <= 5 ==> then_wait == 2 * wait,
        attempt >= 7 ==> wait == 120,
{
    reveal_with_fuel(doubled, 8);
}

/// A chain of errors is told outermost first, each behind a colon.
pub proof fn a_cause_comes_behind(
    messages: &Vec<String>,
    more: &Vec<String>,
    cause: String,
    line: String,
    longer: String,
)
    requires
        call_ensures(format_error_chain, (messages,), line),
        call_ensures(format_error_chain, (more,), longer),
        more@ == messages@.push(cause),
    ensures
        messages@.len() == 0 ==> line@.len() == 0 && longer@ == cause@,
        messages@.len() > 0 ==> longer@ == line@ + ": "@ + cause@,
{
    let all = json::texts(more@);
    assert(all.drop_last() =~= json::texts(messages@));
    assert(all.last() == cause@);
}

/// An endpoint is taken not to know thinking only where it says so of thinking,
/// under a status that blames the request.
pub proof fn thinking_is_turned_down_in_words(status: u16, body: &str, r: bool)
    requires
        call_ensures(anthropic_thinking_unsupported, (status, body), r),
    ensures
        ({
            let s = text::lower(body@);
            r <==> (status == 400 || status == 422) && text::contains(s, "thinking"@) && (
            text::contains(s, "unsupported"@) || text::contains(s, "not supported"@)
                || text::contains(s, "unknown"@) || text::contains(s, "invalid"@)
                || text::contains(s, "unrecognized"@))
        }),
{
    let words = seq!["unsupported", "not supported", "unknown", "invalid", "unrecognized"];
    let s = text::lower(body@);
    assert(words.len() == 5);
    assert(words[0]@ == "unsupported"@ && words[1]@ == "not supported"@ && words[2]@ == "unknown"@
        && words[3]@ == "invalid"@ && words[4]@ == "unrecognized"@);
    if holds_any(s, words) {
        let i = choose|i: int| 0 <= i < words.len() && text::contains(s, #[trigger] words[i]@);
        assert(i == 0 || i == 1 || i == 2 || i == 3 || i == 4);
    }
}

/// An endpoint is taken not to know the options of a stream only where it says
/// so of them, under a status that blames the request.
pub proof fn stream_options_are_turned_down_in_words(status: u16, body: &str, r: bool)
    requires
        call_ensures(stream_options_unsupported, (status, body), r),
    ensures
        ({
            let s = text::lower(body@);
            r <==> (status == 400 || status == 422) && text::contains(s, "stream_options"@) && (
            text::contains(s, "unsupported"@) || text::contains(s, "not supported"@)
                || text::contains(s, "unknown"@) || text::contains(s, "unrecognized"@)
                || text::contains(s, "invalid"@) || text::contains(s, "extra"@))
        }),
{
    let words = seq!["unsupported", "not supported", "unknown", "unrecognized", "invalid", "extra"];
    let s = text::lower(body@);
    assert(words.len() == 6);
    assert(words[0]@ == "unsupported"@ && words[1]@ == "not supported"@ && words[2]@ == "unknown"@
        && words[3]@ == "unrecognized"@ && words[4]@ == "invalid"@ && words[5]@ == "extra"@);
    if holds_any(s, words) {
        let i = choose|i: int| 0 <= i < words.len() && text::contains(s, #[trigger] words[i]@);
        assert(i == 0 || i == 1 || i == 2 || i == 3 || i == 4 || i == 5);
    }
}

/// An endpoint is taken to have no responses interface where there is nothing
/// under its address, or where it says so of a request it blames.
pub proof fn responses_are_turned_down_in_words(status: u16, body: &str, r: bool)
    requires
        call_ensures(responses_unsupported, (status, body), r),
    ensures
        ({
            let s = text::lower(body@);
            r <==> status == 404 || status == 405 || status == 400 && (text::contains(
                s,
                "unsupported"@,
            ) || text::contains(s, "not supported"@) || text::contains(s, "unknown parameter"@)
                || text::contains(s, "invalid endpoint"@) || text::contains(s, "not found"@))
        }),
{
    let words = seq![
        "unsupported",
        "not supported",
        "unknown parameter",
        "invalid endpoint",
        "not found",
    ];
    let s = text::lower(body@);
    assert(words.len() == 5);
    assert(words[0]@ == "unsupported"@ && words[1]@ == "not supported"@ && words[2]@
        == "unknown parameter"@ && words[3]@ == "invalid endpoint"@ && words[4]@ == "not found"@);
    if holds_any(s, words) {
        let i = choose|i: int| 0 <= i < words.len() && text::contains(s, #[trigger] words[i]@);
        assert(i == 0 || i == 1 || i == 2 || i == 3 || i == 4);
    }
}

/// A used-up quota is worth a try without streaming exactly under 429, and a
/// provider behind an endpoint has failed only where that endpoint says so.
pub proof fn fallbacks_are_worded(
    status: u16,
    body: &str,
    zen_endpoint: bool,
    fallback: bool,
    failed: bool,
)
    requires
        call_ensures(non_stream_quota_fallback_candidate, (status, body), fallback),
        call_ensures(zen_upstream_failed, (zen_endpoint, status, body), failed),
    ensures
        fallback <==> status == 429 && text::contains(text::lower(body@), "insufficient_quota"@),
        failed <==> zen_endpoint && status == 400 && text::contains(
            text::lower(body@),
            "upstream request failed"@,
        ),
{
}

/// The line that people see tells the status unless it was made up, and ends
/// with what the provider says.
pub proof fn the_line_tells_status_and_detail(failure: &HttpStatusFailure, locale: Locale, line: String, label: &'static str)
    requires
        call_ensures(HttpStatusFailure::describe, (failure, locale), line),
        call_ensures(HttpFailureKind::label, (failure.kind, failure.relay, locale), label),
    ensures
        ({
            let told = if failure.relay {
                label@
            } else {
                label@ + "（HTTP "@ + text::decimal(failure.status as nat) + "）"@
            };
            match failure.detail {
                Some(detail) => line@ == told + "："@ + detail@,
                None => line@ == told,
            }
        }),
{
}

/// Each class has its own words and its own name.
pub proof fn classes_have_their_words(
    kind: HttpFailureKind,
    relay: bool,
    label: &'static str,
    chinese: &'static str,
    name: &'static str,
)
    requires
        call_ensures(HttpFailureKind::label, (kind, relay, Locale::En), label),
        call_ensures(HttpFailureKind::label, (kind, relay, Locale::Zh), chinese),
        call_ensures(HttpFailureKind::name, (kind,), name),
    ensures
        kind is RateLimit ==> name == "rate_limit" && if relay {
            label == "usage limit reached" && chinese == "额度用完或被限流"
        } else {
            label == "rate limited or out of quota" && chinese == "被限流或额度用完"
        },
        kind is Authentication ==> name == "authentication" && if relay {
            label == "not signed in" && chinese == "没登录或登录态失效"
        } else {
            label == "authentication failed" && chinese == "认证失败"
        },
        kind is EndpointUnavailable ==> name == "endpoint_unavailable" && label
            == "the endpoint does not serve this model" && chinese == "这个端点没有这个模型",
        kind is EndpointIncompatible ==> name == "endpoint_incompatible" && label
            == "the endpoint does not accept this request shape" && chinese
            == "这个端点不认这种请求",
        kind is InvalidRequest ==> name == "invalid_request" && label == "the request was rejected"
            && chinese == "请求被拒",
        kind is ContentPolicy ==> name == "content_policy" && label
            == "the provider's content policy blocked this prompt" && chinese
            == "供应商的内容策略拦下了这条提示词",
        kind is ContextOverflow ==> name == "context_overflow" && label
            == "the conversation is longer than the model's context window" && chinese
            == "对话超出了模型的上下文窗口",
        kind is Quota ==> name == "quota" && label == "out of balance or quota" && chinese
            == "余额或额度用完",
        kind is Status ==> name == "status" && label == "the provider returned an error" && chinese
            == "供应商报错",
{
}

/// The letters and digits of a text, in lower case.
pub open spec fn letters(s: Seq<char>, n: int) -> Seq<char>
    decreases n,
{
    if n <= 0 {
        Seq::empty()
    } else if text::is_alnum(s[n - 1]) {
        letters(s, n - 1).push(text::lower_char(s[n - 1]))
    } else {
        letters(s, n - 1)
    }
}

proof fn lemma_letters(s: Seq<char>, n: int)
    requires
        0 <= n <= s.len(),
    ensures
        snake_prefix(s, n).filter(|c: char| c != '_') == letters(s, n),
    decreases n,
{
    reveal(Seq::filter);
    let keep = |c: char| c != '_';
    if n > 0 {
        lemma_letters(s, n - 1);
        let before = snake_prefix(s, n - 1);
        let c = text::lower_char(s[n - 1]);
        assert(before.push('_').drop_last() =~= before);
        assert(before.push('_').filter(keep) =~= before.filter(keep));
        if text::is_alnum(s[n - 1]) {
            assert(c != '_');
            assert(before.push(c).drop_last() =~= before);
            assert(before.push('_').push(c).drop_last() =~= before.push('_'));
        }
    }
}

/// A signal has all letters and digits of the text it was made of, in order and
/// in lower case, and nothing else but `_`.
pub proof fn signals_keep_every_letter(value: &str, out: String)
    requires
        call_ensures(normalize_error_signal, (value,), out),
    ensures
        out@.filter(|c: char| c != '_') == letters(value@, value@.len() as int),
{
    let all = snake_prefix(value@, value@.len() as int);
    lemma_letters(value@, value@.len() as int);
    if all.len() > 0 && all.last() == '_' {
        reveal(Seq::filter);
    }
}

/// Two texts with something between them that is neither a letter nor a digit,
/// or of which one ends with a small letter or a digit where the other begins
/// with a capital, make a signal of both with one `_` between.
pub proof fn words_are_parted_once(
    a: &str,
    b: &str,
    all: &str,
    first: String,
    second: String,
    out: String,
    between: char,
)
    requires
        call_ensures(normalize_error_signal, (a,), first),
        call_ensures(normalize_error_signal, (b,), second),
        call_ensures(normalize_error_signal, (all,), out),
        first@.len() > 0 && second@.len() > 0,
        !text::is_alnum(between) && all@ == a@.push(between) + b@ || (all@ == a@ + b@ && (
        text::is_lower(a@.last()) || text::is_digit(a@.last())) && text::is_upper(b@[0])),
    ensures
        out@ == first@ + seq!['_'] + second@,
{
    let n = a@.len() as int;
    let m = b@.len() as int;
    lemma_same_start(a@, all@, n);
    let start = snake_prefix(a@, n);
    if all@ == a@.push(between) + b@ && !text::is_alnum(between) {
        assert(all@[n] == between);
        let lead = snake_prefix(all@, n + 1);
        assert(lead =~= first@ + seq!['_']);
        lemma_second(b@, all@, n + 1, m, lead);
        assert(all@.len() == n + 1 + m);
        lemma_lead(lead, snake_prefix(b@, m), second@);
    } else {
        assert(first@ == start);
        assert(start.last() != '_') by {
            assert(text::is_alnum(a@[n - 1]));
        }
        lemma_second_after_small(b@, all@, n, m, start);
        lemma_lead(start + seq!['_'], snake_prefix(b@, m), second@);
    }
}

proof fn lemma_lead(lead: Seq<char>, rest: Seq<char>, second: Seq<char>)
    requires
        lead.len() > 0,
        second.len() > 0,
        second == if rest.len() > 0 && rest.last() == '_' {
            rest.drop_last()
        } else {
            rest
        },
    ensures
        (lead + rest).len() > 0,
        (lead + rest).last() == rest.last(),
        (lead + rest).drop_last() == lead + rest.drop_last(),
{
    assert((lead + rest).drop_last() =~= lead + rest.drop_last());
}

/// What comes behind does not change the beginning, but where a capital at the
/// end of it is looked at.
proof fn lemma_same_start(a: Seq<char>, all: Seq<char>, n: int)
    requires
        0 <= n <= a.len() <= all.len(),
        forall|i: int| 0 <= i < a.len() ==> #[trigger] a[i] == all[i],
        a.len() < all.len() ==> !text::is_lower(all[a.len() as int]),
    ensures
        snake_prefix(all, n) == snake_prefix(a, n),
    decreases n,
{
    if n > 0 {
        lemma_same_start(a, all, n - 1);
        assert(a[n - 1] == all[n - 1]);
        if n > 1 {
            assert(a[n - 2] == all[n - 2]);
        }
        if n < a.len() {
            assert(a[n] == all[n]);
        }
        assert(camel_boundary(a, n - 1) == camel_boundary(all, n - 1));
    }
}

proof fn lemma_second(b: Seq<char>, all: Seq<char>, at: int, k: int, lead: Seq<char>)
    requires
        0 < at,
        0 <= k <= b.len(),
        all.len() == at + b.len(),
        forall|i: int| 0 <= i < b.len() ==> #[trigger] all[at + i] == b[i],
        !text::is_alnum(all[at - 1]),
        lead == snake_prefix(all, at),
        lead.len() > 0 && lead.last() == '_',
    ensures
        snake_prefix(all, at + k) == lead + snake_prefix(b, k),
    decreases k,
{
    if k > 0 {
        lemma_second(b, all, at, k - 1, lead);
        let before = snake_prefix(b, k - 1);
        assert(all[at + (k - 1)] == b[k - 1]);
        if k > 1 {
            assert(all[at + (k - 2)] == b[k - 2]);
        }
        if k < b.len() {
            assert(all[at + k] == b[k]);
        }
        assert(k > 1 ==> camel_boundary(b, k - 1) == camel_boundary(all, at + k - 1));
        if before.len() > 0 {
            assert((lead + before).last() == before.last());
        } else {
            assert(lead + before =~= lead);
        }
        assert(snake_prefix(all, at + k) =~= lead + snake_prefix(b, k));
    } else {
        assert(lead + snake_prefix(b, 0) =~= lead);
    }
}

proof fn lemma_second_after_small(b: Seq<char>, all: Seq<char>, at: int, k: int, start: Seq<char>)
    requires
        0 < at,
        1 <= k <= b.len(),
        all.len() == at + b.len(),
        forall|i: int| 0 <= i < b.len() ==> #[trigger] all[at + i] == b[i],
        text::is_lower(all[at - 1]) || text::is_digit(all[at - 1]),
        text::is_upper(b[0]),
        start == snake_prefix(all, at),
        start.len() > 0 && start.last() != '_',
    ensures
        snake_prefix(all, at + k) == start + seq!['_'] + snake_prefix(b, k),
    decreases k,
{
    let lead = start + seq!['_'];
    assert(all[at + 0] == b[0]);
    if k > 1 {
        lemma_second_after_small(b, all, at, k - 1, start);
        let before = snake_prefix(b, k - 1);
        assert(all[at + (k - 1)] == b[k - 1]);
        assert(all[at + (k - 2)] == b[k - 2]);
        if k < b.len() {
            assert(all[at + k] == b[k]);
        }
        assert(camel_boundary(b, k - 1) == camel_boundary(all, at + k - 1));
        lemma_first_letter(b, k - 1);
        assert((lead + before).last() == before.last());
        assert(snake_prefix(all, at + k) =~= lead + snake_prefix(b, k));
    } else {
        reveal_with_fuel(snake_prefix, 2);
        assert(camel_boundary(all, at));
        assert(snake_prefix(all, at + 1) =~= lead + snake_prefix(b, 1));
    }
}

proof fn lemma_first_letter(b: Seq<char>, k: int)
    requires
        1 <= k <= b.len(),
        text::is_upper(b[0]),
    ensures
        snake_prefix(b, k).len() > 0,
    decreases k,
{
    reveal_with_fuel(snake_prefix, 2);
    if k > 1 {
        lemma_first_letter(b, k - 1);
    }
}

/// A body alone is classed by the signals of the error that it reports: the
/// value of its `error` member where it has one, and otherwise itself.
pub proof fn a_body_is_classed_by_its_error(
    body: &str,
    kind: Option<HttpFailureKind>,
    error: &Option<JsonShape>,
    signals: Vec<String>,
    class: Option<HttpFailureKind>,
)
    requires
        call_ensures(classify_provider_error_body, (body,), kind),
        match json::json_shape(body@) {
            None => *error is None,
            Some(shape) => match json::member(shape, "error"@) {
                None => *error matches Some(e) && e@ == shape,
                Some(inner) => match json::json_shape(inner) {
                    None => *error is None,
                    Some(inner) => *error matches Some(e) && e@ == inner,
                },
            },
        },
        call_ensures(error_signals, (body, error), signals),
        call_ensures(classify_signals, (&signals,), class),
    ensures
        kind == class,
{
}

/// An error says nothing where it is null, a text of blanks or an object with
/// no members.
pub proof fn empty_errors_say_nothing(value: &JsonShape, empty: bool)
    requires
        call_ensures(is_empty_error, (value,), empty),
    ensures
        empty == match value {
            JsonShape::Null => true,
            JsonShape::Text(t) => text::trim(t@).len() == 0,
            JsonShape::Object(members) => members@.len() == 0,
            _ => false,
        },
{
    if let JsonShape::Object(members) = value {
        assert(json::text_pairs(members@).len() == members@.len());
    }
}

/// The sentence of an error is its message; without one, the message of its
/// `error` member; without that, the whole error.
pub proof fn the_sentence_is_the_message(
    value: &JsonShape,
    rendered: &str,
    out: String,
    own: Option<String>,
    inner: Option<String>,
)
    requires
        call_ensures(find_error_sentence, (value, rendered), out),
        call_ensures(JsonShape::get_text, (value, "message"), own),
        call_ensures(JsonShape::get, (value, "error"), inner),
    ensures
        own matches Some(message) ==> out@ == message@,
        own is None && inner is None ==> out@ == rendered@,
        own is None ==> (inner matches Some(error) ==> match json::json_shape(error@) {
            Some(shape) => match json::member_text(shape, "message"@) {
                Some(message) => out@ == message,
                None => out@ == rendered@,
            },
            None => out@ == rendered@,
        }),
{
}

/// Only the wait of a failure is set.
pub proof fn only_the_wait_is_set(
    failure: HttpStatusFailure,
    wait: Option<u128>,
    out: HttpStatusFailure,
)
    requires
        call_ensures(HttpStatusFailure::with_retry_after, (failure, wait), out),
    ensures
        out.retry_after == wait,
        out.kind == failure.kind,
        out.detail == failure.detail,
        out.relay == failure.relay,
{
}

/// Which wait is asked for does not depend on the time, but for how long until
/// a date: there is one where the date can be read.
pub proof fn waits_are_asked_for_in_order(
    millis: HeaderNumber,
    value: Option<&str>,
    seconds: HeaderNumber,
    wait: Option<u128>,
)
    requires
        call_ensures(parse_retry_after, (millis, value, seconds), wait),
    ensures
        millis matches HeaderNumber::Nanos(n) ==> wait == Some(n),
        millis !is Nanos && value is None ==> wait is None,
        millis !is Nanos && value is Some ==> (seconds matches HeaderNumber::Nanos(n) ==> wait
            == Some(n)),
        millis !is Nanos && seconds is Unusable ==> wait is None,
        millis !is Nanos && value is Some && seconds is Absent ==> (wait is Some
            <==> clock::rfc2822_moment(value->0@) is Some),
{
}

} // verus!
