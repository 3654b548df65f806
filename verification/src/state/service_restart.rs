//! The envelope of a message that continues a turn.
//!
//! When the service restarts in the middle of a turn, the new process starts a
//! turn that goes on where the old one stopped, and the message of that turn
//! is
//!
//! ```text
//! <service-restart attempt="1">
//! The Miyu service restarted while you were working, ...
//! </service-restart>
//! ```
//!
//! `attempt` counts the restarts in a row, and `goal-round="true"` marks a
//! turn that went on by itself towards a goal.

use vstd::prelude::*;

use crate::i18n::{self, text_for, Locale};
use crate::json::{self, quote_json};
use crate::text::{
    self, chars_of, find_str, head, push_decimal, read_u32, rfind_str, strip_end, strip_start, tail,
    without_leading_space, without_trailing_space,
};

verus! {

broadcast use vstd::string::group_string_axioms;

pub const SERVICE_RESTART_TAG: &'static str = "<service-restart";

pub const SERVICE_RESTART_CLOSE_TAG: &'static str = "</service-restart>";

pub const GOAL_ROUND_ATTR: &'static str = " goal-round=\"true\"";

pub const SERVICE_RESTART_NOTE: &'static str = "The Miyu service restarted while you were working, so your previous reply was cut off. Continue from where it stopped. A tool call marked as interrupted may or may not have taken effect, so check before repeating it.";

pub const SUBAGENTS_NOTE: &'static str = "Subagents that were still working continue in the background as new jobs. You are woken with each result, so do not start them again.";

/// A subagent that was at work when the service restarted and now goes on as a
/// job of its parent.
#[derive(Debug)]
pub struct ContinuingSubagent {
    pub job_id: String,
    pub session_id: String,
    /// The name of the session, written by a model.
    pub name: String,
}

/// A message that continues a turn.
#[derive(Debug, Clone, Copy)]
pub struct ServiceRestart<'a> {
    pub attempt: u32,
    pub goal_round: bool,
    pub subagents: &'a [ContinuingSubagent],
}

impl<'a> ServiceRestart<'a> {
    pub fn new(attempt: u32) -> (out: Self)
        ensures
            out.attempt == attempt,
            !out.goal_round,
            out.subagents@.len() == 0,
    {
        ServiceRestart { attempt, goal_round: false, subagents: &[] }
    }
}

/// The attempt a message that continues a turn counts, read at its beginning.
pub open spec fn attempt_of(content: Seq<char>) -> Option<u32> {
    match text::strip_prefix(text::trim_start(content), SERVICE_RESTART_TAG@) {
        Some(rest) => match text::strip_prefix(text::trim_start(rest), "attempt=\""@) {
            Some(rest) => match text::find(rest, "\""@) {
                Some(at) => text::parse_u32(rest.take(at)),
                None => None,
            },
            None => None,
        },
        None => None,
    }
}

/// The attempt a message that continues a turn counts, read at its beginning.
fn attempt_in(content: &Vec<char>) -> (attempt: Option<u32>)
    ensures
        attempt == attempt_of(content@),
{
    let rest = strip_start(&without_leading_space(content), SERVICE_RESTART_TAG);
    let rest = match rest {
        Some(rest) => rest,
        None => return None,
    };
    let rest = strip_start(&without_leading_space(&rest), "attempt=\"");
    let rest = match rest {
        Some(rest) => rest,
        None => return None,
    };
    match find_str(&rest, "\"") {
        Some(at) => read_u32(&rest, 0, at),
        None => None,
    }
}

/// Which attempt a message that continues a turn is. `None` where it is no
/// such message or its envelope is broken.
pub fn service_restart_attempt(content: &str) -> (attempt: Option<u32>)
    ensures
        attempt == attempt_of(content@),
{
    attempt_in(&chars_of(content))
}

/// The envelope that a turn belongs to: one the message begins with, or a
/// whole one that ends it, as in a group chat, where earlier messages stand
/// before it. A tag quoted in the middle of a message is none.
pub open spec fn envelope_of(content: Seq<char>) -> Option<Seq<char>> {
    if attempt_of(content) is Some {
        Some(text::trim_start(content))
    } else {
        let trimmed = text::trim_end(content);
        if text::strip_suffix(trimmed, SERVICE_RESTART_CLOSE_TAG@) is None {
            None
        } else {
            match text::rfind(trimmed, SERVICE_RESTART_TAG@) {
                Some(at) => if attempt_of(trimmed.skip(at)) is Some {
                    Some(trimmed.skip(at))
                } else {
                    None
                },
                None => None,
            }
        }
    }
}

/// The envelope that a turn belongs to.
fn chain_envelope(content: &str) -> (envelope: Option<Vec<char>>)
    ensures
        text::opt_chars(envelope) == envelope_of(content@),
{
    let chars = chars_of(content);
    if attempt_in(&chars).is_some() {
        return Some(without_leading_space(&chars));
    }
    let trimmed = without_trailing_space(&chars);
    if strip_end(&trimmed, SERVICE_RESTART_CLOSE_TAG).is_none() {
        return None;
    }
    match rfind_str(&trimmed, SERVICE_RESTART_TAG) {
        Some(at) => {
            let envelope = tail(&trimmed, at);
            if attempt_in(&envelope).is_some() {
                Some(envelope)
            } else {
                None
            }
        },
        None => None,
    }
}

/// Which attempt the turn that `content` started is.
pub open spec fn chain_attempt(content: Seq<char>) -> Option<u32> {
    match envelope_of(content) {
        Some(envelope) => attempt_of(envelope),
        None => None,
    }
}

/// Which attempt the turn that `content` started is.
pub fn restart_chain_attempt(content: &str) -> (attempt: Option<u32>)
    ensures
        attempt == chain_attempt(content@),
{
    match chain_envelope(content) {
        Some(envelope) => attempt_in(&envelope),
        None => None,
    }
}

/// Whether the turn that `content` started goes on by itself towards a goal.
pub open spec fn is_goal_round(content: Seq<char>) -> bool {
    match envelope_of(content) {
        Some(envelope) => match text::find(envelope, ">"@) {
            Some(at) => text::strip_suffix(envelope.take(at), GOAL_ROUND_ATTR@) is Some,
            None => false,
        },
        None => false,
    }
}

/// Whether the turn that `content` started goes on by itself towards a goal.
pub fn restart_chain_is_goal_round(content: &str) -> (r: bool)
    ensures
        r == is_goal_round(content@),
{
    match chain_envelope(content) {
        Some(envelope) => match find_str(&envelope, ">") {
            Some(at) => strip_end(&head(&envelope, at), GOAL_ROUND_ATTR).is_some(),
            None => false,
        },
        None => false,
    }
}

/// `s` with its angle brackets written as JSON escapes.
pub open spec fn escaped(s: Seq<char>) -> Seq<char>
    decreases s.len(),
{
    if s.len() == 0 {
        Seq::empty()
    } else {
        let c = s.last();
        let before = escaped(s.drop_last());
        if c == '<' {
            before + "\\u003c"@
        } else if c == '>' {
            before + "\\u003e"@
        } else {
            before.push(c)
        }
    }
}

/// `value` as a JSON string literal without angle brackets, so that a name
/// cannot close the envelope it stands in.
fn quoted_field(value: &str) -> (out: String)
    ensures
        out@ == escaped(json::json_quoted(value@)),
{
    let literal = quote_json(value);
    escape_brackets(literal.as_str())
}

/// `literal` with its angle brackets written as JSON escapes.
pub fn escape_brackets(literal: &str) -> (out: String)
    ensures
        out@ == escaped(literal@),
{
    let chars = chars_of(literal);
    let mut out = String::new();
    let mut i: usize = 0;
    proof {
        assert(chars@.take(0) =~= Seq::empty());
    }
    while i < chars.len()
        invariant
            i <= chars@.len(),
            out@ == escaped(chars@.take(i as int)),
        decreases chars@.len() - i,
    {
        let c = chars[i];
        proof {
            assert(chars@.take(i + 1).drop_last() =~= chars@.take(i as int));
        }
        if c == '<' {
            out.append("\\u003c");
        } else if c == '>' {
            out.append("\\u003e");
        } else {
            out.push(c);
        }
        i += 1;
    }
    assert(chars@.take(chars@.len() as int) =~= chars@);
    out
}

/// The line that lists one subagent, with its name already quoted.
pub open spec fn subagent_line(
    job_id: Seq<char>,
    session_id: Seq<char>,
    quoted_name: Seq<char>,
) -> Seq<char> {
    "\n- job "@ + job_id + ", session "@ + session_id + ": "@ + quoted_name
}

/// The lines that list the first `n` subagents.
pub open spec fn subagent_lines(subagents: Seq<ContinuingSubagent>, n: int) -> Seq<char>
    decreases n,
{
    if n <= 0 {
        Seq::empty()
    } else {
        subagent_lines(subagents, n - 1) + subagent_line(
            subagents[n - 1].job_id@,
            subagents[n - 1].session_id@,
            escaped(json::json_quoted(subagents[n - 1].name@)),
        )
    }
}

/// What stands between the tags.
pub open spec fn restart_body(subagents: Seq<ContinuingSubagent>) -> Seq<char> {
    if subagents.len() == 0 {
        SERVICE_RESTART_NOTE@
    } else {
        SERVICE_RESTART_NOTE@ + "\n"@ + SUBAGENTS_NOTE@ + subagent_lines(
            subagents,
            subagents.len() as int,
        )
    }
}

/// What the opening tag holds: the tag, the attempt and the goal mark.
pub open spec fn opening(attempt: u32, goal_round: bool) -> Seq<char> {
    SERVICE_RESTART_TAG@ + " attempt=\""@ + text::decimal(attempt as nat) + "\""@ + (
    if goal_round {
        GOAL_ROUND_ATTR@
    } else {
        Seq::empty()
    })
}

/// The message that continues a turn.
pub open spec fn restart_message(
    attempt: u32,
    goal_round: bool,
    subagents: Seq<ContinuingSubagent>,
) -> Seq<char> {
    opening(attempt, goal_round) + ">\n"@ + restart_body(subagents) + "\n"@
        + SERVICE_RESTART_CLOSE_TAG@
}

/// The message that continues a turn.
pub fn compose_service_restart_message(restart: &ServiceRestart<'_>) -> (out: String)
    ensures
        out@ == restart_message(restart.attempt, restart.goal_round, restart.subagents@),
{
    let subagents = restart.subagents;
    let mut body = SERVICE_RESTART_NOTE.to_owned();
    if subagents.len() > 0 {
        body.append("\n");
        body.append(SUBAGENTS_NOTE);
        let ghost start = body@;
        let mut i: usize = 0;
        while i < subagents.len()
            invariant
                i <= subagents@.len(),
                body@ =~= start + subagent_lines(subagents@, i as int),
            decreases subagents@.len() - i,
        {
            body.append("\n- job ");
            body.append(subagents[i].job_id.as_str());
            body.append(", session ");
            body.append(subagents[i].session_id.as_str());
            body.append(": ");
            body.append(quoted_field(subagents[i].name.as_str()).as_str());
            i += 1;
        }
    }
    let mut out = SERVICE_RESTART_TAG.to_owned();
    out.append(" attempt=\"");
    push_decimal(&mut out, restart.attempt as u64);
    out.append("\"");
    if restart.goal_round {
        out.append(GOAL_ROUND_ATTR);
    }
    assert(out@ =~= opening(restart.attempt, restart.goal_round));
    out.append(">\n");
    out.append(body.as_str());
    out.append("\n");
    out.append(SERVICE_RESTART_CLOSE_TAG);
    out
}

/// The line that people see.
pub open spec fn headline(attempt: u32, locale: Locale) -> Seq<char> {
    if attempt <= 1 {
        i18n::wording(
            locale,
            "Miyu restarted, continuing the previous turn",
            "Miyu 重启了，接着上一轮继续",
        )@
    } else {
        i18n::wording(
            locale,
            "Miyu restarted again, continuing the previous turn (attempt ",
            "Miyu 又重启了，接着上一轮继续（第 ",
        )@ + text::decimal(attempt as nat) + i18n::wording(locale, ")", " 次）")@
    }
}

/// The line that people see.
pub fn service_restart_headline(attempt: u32, locale: Locale) -> (line: String)
    ensures
        line@ == headline(attempt, locale),
{
    if attempt <= 1 {
        text_for(
            locale,
            "Miyu restarted, continuing the previous turn",
            "Miyu 重启了，接着上一轮继续",
        ).to_owned()
    } else {
        let mut line = text_for(
            locale,
            "Miyu restarted again, continuing the previous turn (attempt ",
            "Miyu 又重启了，接着上一轮继续（第 ",
        ).to_owned();
        push_decimal(&mut line, attempt as u64);
        line.append(text_for(locale, ")", " 次）"));
        line
    }
}

// ---------------------------------------------------------------------------
// Laws
// ---------------------------------------------------------------------------

/// Whether `c` does not occur in `s`.
pub open spec fn free_of(s: Seq<char>, c: char) -> bool {
    forall|i: int| 0 <= i < s.len() ==> #[trigger] s[i] != c
}

/// Neither the jobs nor the sessions of the subagents have a `<` in their ids.
/// Their names may hold anything.
pub open spec fn plain_ids(subagents: Seq<ContinuingSubagent>) -> bool {
    forall|i: int|
        0 <= i < subagents.len() ==> free_of(#[trigger] subagents[i].job_id@, '<') && free_of(
            subagents[i].session_id@,
            '<',
        )
}

proof fn lemma_escaped(s: Seq<char>)
    ensures
        free_of(escaped(s), '<'),
        free_of(escaped(s), '>'),
    decreases s.len(),
{
    reveal_strlit("\\u003c");
    reveal_strlit("\\u003e");
    if s.len() > 0 {
        lemma_escaped(s.drop_last());
    }
}

proof fn lemma_lines(subagents: Seq<ContinuingSubagent>, n: int)
    requires
        0 <= n <= subagents.len(),
        plain_ids(subagents),
    ensures
        free_of(subagent_lines(subagents, n), '<'),
    decreases n,
{
    if n > 0 {
        lemma_lines(subagents, n - 1);
        let agent = subagents[n - 1];
        assert(free_of(agent.job_id@, '<'));
        reveal_strlit("\n- job ");
        reveal_strlit(", session ");
        reveal_strlit(": ");
        lemma_escaped(json::json_quoted(agent.name@));
        let a = "\n- job "@ + agent.job_id@;
        assert(free_of(a, '<'));
        let b = a + ", session "@ + agent.session_id@;
        assert(free_of(b, '<'));
        let c = b + ": "@;
        assert(free_of(c, '<'));
        assert(free_of(c + escaped(json::json_quoted(agent.name@)), '<'));
    }
}

proof fn lemma_body(subagents: Seq<ContinuingSubagent>)
    requires
        plain_ids(subagents),
    ensures
        free_of(restart_body(subagents), '<'),
{
    reveal_strlit(
        "The Miyu service restarted while you were working, so your previous reply was cut off. Continue from where it stopped. A tool call marked as interrupted may or may not have taken effect, so check before repeating it.",
    );
    reveal_strlit(
        "Subagents that were still working continue in the background as new jobs. You are woken with each result, so do not start them again.",
    );
    reveal_strlit("\n");
    lemma_lines(subagents, subagents.len() as int);
    assert(free_of(SERVICE_RESTART_NOTE@, '<'));
    assert(free_of(SUBAGENTS_NOTE@, '<'));
    let a = SERVICE_RESTART_NOTE@ + "\n"@;
    assert(free_of(a, '<'));
    let b = a + SUBAGENTS_NOTE@;
    assert(free_of(b, '<'));
}

/// The digits before the first quote are what the quote ends.
proof fn lemma_first_quote(n: u32, rest: Seq<char>)
    ensures
        ({
            let r = text::decimal(n as nat) + "\""@ + rest;
            &&& text::find(r, "\""@) == Some(text::decimal(n as nat).len() as int)
            &&& r.take(text::decimal(n as nat).len() as int) == text::decimal(n as nat)
        }),
{
    reveal_strlit("\"");
    let digits = text::decimal(n as nat);
    let r = digits + "\""@ + rest;
    let k = digits.len() as int;
    text::lemma_decimal(n as nat);
    assert(r.subrange(k, k + 1) =~= "\""@);
    assert forall|i: int| 0 <= i < k implies !text::matches_at(r, "\""@, i) by {
        assert(text::is_digit(digits[i]));
        if r.subrange(i, i + 1) == "\""@ {
            assert(r.subrange(i, i + 1)[0] == r[i]);
        }
    }
    text::lemma_find_from_is(r, "\""@, 0, k);
    assert(r.take(k) =~= digits);
}

/// An opening tag with an attempt, whatever follows it, says the attempt.
proof fn lemma_attempt_read(n: u32, rest: Seq<char>)
    ensures
        attempt_of(
            SERVICE_RESTART_TAG@ + (" attempt=\""@ + (text::decimal(n as nat) + "\""@ + rest)),
        ) == Some(n),
{
    reveal_strlit("<service-restart");
    reveal_strlit(" attempt=\"");
    reveal_strlit("attempt=\"");
    reveal_with_fuel(text::trim_start, 3);
    let r = text::decimal(n as nat) + "\""@ + rest;
    let tag = SERVICE_RESTART_TAG@;
    let attr = "attempt=\""@;
    let after = " attempt=\""@ + r;
    let m = tag + after;
    lemma_first_quote(n, rest);
    text::lemma_parse_decimal(n);
    assert(m[0] == '<');
    assert(m.subrange(0, tag.len() as int) =~= tag);
    assert(m.skip(tag.len() as int) =~= after);
    assert(after[0] == ' ');
    assert(after.skip(1) =~= attr + r);
    assert((attr + r)[0] == 'a');
    assert(text::trim_start(after) == attr + r);
    assert((attr + r).subrange(0, attr.len() as int) =~= attr);
    assert((attr + r).skip(attr.len() as int) =~= r);
}

/// The attempt a message was composed with is read from it again, by itself
/// and along the chain.
pub proof fn attempt_round_trips(
    attempt: u32,
    goal_round: bool,
    subagents: Seq<ContinuingSubagent>,
)
    ensures
        attempt_of(restart_message(attempt, goal_round, subagents)) == Some(attempt),
        chain_attempt(restart_message(attempt, goal_round, subagents)) == Some(attempt),
{
    let m = restart_message(attempt, goal_round, subagents);
    let mark = if goal_round {
        GOAL_ROUND_ATTR@
    } else {
        Seq::empty()
    };
    let rest = mark + ">\n"@ + restart_body(subagents) + "\n"@ + SERVICE_RESTART_CLOSE_TAG@;
    let digits = text::decimal(attempt as nat);
    assert(m =~= SERVICE_RESTART_TAG@ + (" attempt=\""@ + (digits + "\""@ + rest)));
    lemma_attempt_read(attempt, rest);
    assert(text::trim_start(m) == m) by {
        reveal_strlit("<service-restart");
        assert(m[0] == '<');
    }
}

/// A message says that it continues a goal round exactly where it was composed
/// to.
pub proof fn goal_round_round_trips(
    attempt: u32,
    goal_round: bool,
    subagents: Seq<ContinuingSubagent>,
)
    ensures
        is_goal_round(restart_message(attempt, goal_round, subagents)) == goal_round,
{
    reveal_strlit("<service-restart");
    reveal_strlit(" attempt=\"");
    reveal_strlit("\"");
    reveal_strlit(" goal-round=\"true\"");
    reveal_strlit(">\n");
    reveal_strlit(">");
    let m = restart_message(attempt, goal_round, subagents);
    let open = opening(attempt, goal_round);
    attempt_round_trips(attempt, goal_round, subagents);
    assert(m[0] == '<');
    assert(text::trim_start(m) == m);
    text::lemma_decimal(attempt as nat);
    let digits = text::decimal(attempt as nat);
    let n = open.len() as int;
    let head = SERVICE_RESTART_TAG@ + " attempt=\""@;
    assert(free_of(head, '>'));
    assert(free_of(digits, '>')) by {
        assert forall|i: int| 0 <= i < digits.len() implies #[trigger] digits[i] != '>' by {
            assert(text::is_digit(digits[i]));
        }
    }
    assert(free_of(head + digits, '>'));
    assert(free_of(head + digits + "\""@, '>'));
    assert(free_of(open, '>'));
    assert(m[n] == '>');
    assert(m.subrange(n, n + 1) =~= ">"@);
    assert forall|k: int| 0 <= k < n implies !text::matches_at(m, ">"@, k) by {
        assert(m[k] == open[k]);
        if m.subrange(k, k + 1) == ">"@ {
            assert(m.subrange(k, k + 1)[0] == m[k]);
        }
    }
    text::lemma_find_from_is(m, ">"@, 0, n);
    assert(m.take(n) =~= open);
    let attr = GOAL_ROUND_ATTR@;
    if goal_round {
        assert(open.subrange(n - attr.len(), n) =~= attr);
    } else {
        assert(open =~= head + digits + "\""@);
        assert(text::is_digit(digits.last()));
        assert(open[n - 2] == digits.last());
        if text::matches_at(open, attr, n - attr.len()) {
            assert(open.subrange(n - attr.len(), n)[attr.len() - 2] == open[n - 2]);
            assert(false);
        }
    }
}

/// Where a `<` can stand in a message: at its two ends.
proof fn lemma_brackets(attempt: u32, goal_round: bool, subagents: Seq<ContinuingSubagent>)
    requires
        plain_ids(subagents),
    ensures
        ({
            let m = restart_message(attempt, goal_round, subagents);
            let close = SERVICE_RESTART_CLOSE_TAG@;
            &&& close.len() == 18
            &&& m.len() >= 2 + close.len()
            &&& text::matches_at(m, SERVICE_RESTART_TAG@, 0)
            &&& m[0] == '<' && m[1] == 's'
            &&& m.skip(m.len() - close.len()) == close
            &&& close[0] == '<' && close[1] == '/' && close.last() == '>' && free_of(
                close.skip(1),
                '<',
            )
            &&& forall|i: int| 0 < i < m.len() - close.len() ==> #[trigger] m[i] != '<'
        }),
{
    reveal_strlit("<service-restart");
    reveal_strlit("</service-restart>");
    reveal_strlit(" attempt=\"");
    reveal_strlit("\"");
    reveal_strlit(" goal-round=\"true\"");
    reveal_strlit(">\n");
    reveal_strlit("\n");
    text::lemma_decimal(attempt as nat);
    lemma_body(subagents);
    let m = restart_message(attempt, goal_round, subagents);
    let close = SERVICE_RESTART_CLOSE_TAG@;
    let digits = text::decimal(attempt as nat);
    assert(free_of(digits, '<')) by {
        assert forall|i: int| 0 <= i < digits.len() implies #[trigger] digits[i] != '<' by {
            assert(text::is_digit(digits[i]));
        }
    }
    let tag_rest = SERVICE_RESTART_TAG@.skip(1) + " attempt=\""@;
    assert(free_of(tag_rest, '<'));
    let open_rest = tag_rest + digits + "\""@;
    assert(free_of(open_rest, '<'));
    let open_rest = open_rest + (if goal_round {
        GOAL_ROUND_ATTR@
    } else {
        Seq::empty()
    });
    assert(free_of(open_rest, '<'));
    let inner = open_rest + ">\n"@ + restart_body(subagents) + "\n"@;
    assert(free_of(inner, '<'));
    assert(m =~= seq!['<'] + inner + close);
    assert(m.skip(m.len() - close.len()) =~= close);
    assert(m.subrange(0, SERVICE_RESTART_TAG@.len() as int) =~= SERVICE_RESTART_TAG@);
    assert forall|i: int| 0 < i < m.len() - close.len() implies #[trigger] m[i] != '<' by {
        assert(m[i] == inner[i - 1]);
    }
}

/// However the subagents are named, the closing tag stands in the message
/// once, at its end.
pub proof fn a_name_cannot_close_the_envelope(
    attempt: u32,
    goal_round: bool,
    subagents: Seq<ContinuingSubagent>,
    at: int,
)
    requires
        plain_ids(subagents),
    ensures
        text::matches_at(
            restart_message(attempt, goal_round, subagents),
            SERVICE_RESTART_CLOSE_TAG@,
            at,
        ) <==> at == restart_message(attempt, goal_round, subagents).len()
            - SERVICE_RESTART_CLOSE_TAG@.len(),
{
    lemma_brackets(attempt, goal_round, subagents);
    let m = restart_message(attempt, goal_round, subagents);
    let close = SERVICE_RESTART_CLOSE_TAG@;
    let end = m.len() - close.len();
    assert(m.subrange(end, m.len() as int) =~= m.skip(end));
    if text::matches_at(m, close, at) {
        assert(m.subrange(at, at + close.len())[0] == m[at]);
        assert(m.subrange(at, at + close.len())[1] == m[at + 1]);
    }
}

/// A message with nothing but its two ends in angle brackets is the envelope
/// of any text it ends.
proof fn lemma_envelope_at_the_end(before: Seq<char>, m: Seq<char>)
    requires
        ({
            let close = SERVICE_RESTART_CLOSE_TAG@;
            &&& close.len() == 18
            &&& m.len() >= 2 + close.len()
            &&& text::matches_at(m, SERVICE_RESTART_TAG@, 0)
            &&& m[0] == '<' && m[1] == 's'
            &&& m.skip(m.len() - close.len()) == close
            &&& close[0] == '<' && close[1] == '/' && close.last() == '>' && free_of(
                close.skip(1),
                '<',
            )
            &&& forall|i: int| 0 < i < m.len() - close.len() ==> #[trigger] m[i] != '<'
        }),
        attempt_of(m) is Some,
        attempt_of(before + m) is None,
    ensures
        envelope_of(before + m) == Some(m),
{
    reveal_strlit("<service-restart");
    let close = SERVICE_RESTART_CLOSE_TAG@;
    let tag = SERVICE_RESTART_TAG@;
    let all = before + m;
    let end = m.len() - close.len();
    let start = before.len() as int;
    assert(m.skip(end)[17] == m[m.len() - 1]);
    assert(all.last() == '>');
    assert(text::trim_end(all) == all);
    assert(all.subrange(all.len() - close.len(), all.len() as int) =~= m.skip(end));
    assert(all.subrange(start, start + tag.len()) =~= m.subrange(0, tag.len() as int));
    assert(text::matches_at(all, tag, start));
    text::lemma_rfind_to(all, tag, all.len() - tag.len());
    let at = text::rfind(all, tag)->Some_0;
    assert(text::matches_at(all, tag, at) && at >= start);
    assert(all.subrange(at, at + tag.len())[0] == all[at]);
    assert(all.subrange(at, at + tag.len())[1] == all[at + 1]);
    let k = at - start;
    assert(all[at] == m[k] && all[at + 1] == m[k + 1]);
    if k > 0 {
        assert(k >= end);
        assert(m[k] == m.skip(end)[k - end]);
        assert(m[k + 1] == m.skip(end)[k + 1 - end]);
        if k > end {
            assert(close.skip(1)[k - end - 1] == close[k - end]);
        }
        assert(false);
    }
    assert(all.skip(at) =~= m);
}

/// A message that ends a group turn is counted along the chain, whatever stands
/// before it, unless what stands before is such a message itself.
pub proof fn the_chain_counts_an_envelope_at_the_end(
    before: Seq<char>,
    attempt: u32,
    goal_round: bool,
    subagents: Seq<ContinuingSubagent>,
)
    requires
        plain_ids(subagents),
        attempt_of(before + restart_message(attempt, goal_round, subagents)) is None,
    ensures
        chain_attempt(before + restart_message(attempt, goal_round, subagents)) == Some(attempt),
        is_goal_round(before + restart_message(attempt, goal_round, subagents)) == goal_round,
{
    let m = restart_message(attempt, goal_round, subagents);
    lemma_brackets(attempt, goal_round, subagents);
    attempt_round_trips(attempt, goal_round, subagents);
    goal_round_round_trips(attempt, goal_round, subagents);
    lemma_envelope_at_the_end(before, m);
    assert(text::trim_start(m) == m);
}

/// The line that people see counts the attempts from the second on.
pub proof fn later_attempts_are_counted(attempt: u32, line: String, chinese: String)
    requires
        call_ensures(service_restart_headline, (attempt, Locale::En), line),
        call_ensures(service_restart_headline, (attempt, Locale::Zh), chinese),
    ensures
        attempt <= 1 ==> line@ == "Miyu restarted, continuing the previous turn"@ && chinese@
            == "Miyu 重启了，接着上一轮继续"@,
        attempt > 1 ==> line@ == "Miyu restarted again, continuing the previous turn (attempt "@
            + text::decimal(attempt as nat) + ")"@ && chinese@
            == "Miyu 又重启了，接着上一轮继续（第 "@ + text::decimal(attempt as nat) + " 次）"@,
{
}

/// Every subagent that goes on is listed in the message, with its job and its
/// session, in their order.
pub proof fn every_subagent_is_listed(restart: &ServiceRestart<'_>, out: String, i: int)
    requires
        call_ensures(compose_service_restart_message, (restart,), out),
        0 <= i < restart.subagents@.len(),
    ensures
        ({
            let subagent = restart.subagents@[i];
            let told = "\n- job "@ + subagent.job_id@ + ", session "@ + subagent.session_id@
                + ": "@;
            exists|at: int| #[trigger] text::matches_at(out@, told, at)
        }),
{
    let subagents = restart.subagents@;
    let n = subagents.len() as int;
    let subagent = subagents[i];
    let told = "\n- job "@ + subagent.job_id@ + ", session "@ + subagent.session_id@ + ": "@;
    lemma_lines_hold(subagents, n, i);
    let lines = subagent_lines(subagents, n);
    let at = choose|at: int| #[trigger] text::matches_at(lines, told, at);
    let before = opening(restart.attempt, restart.goal_round) + ">\n"@ + (SERVICE_RESTART_NOTE@
        + "\n"@ + SUBAGENTS_NOTE@);
    let after = "\n"@ + SERVICE_RESTART_CLOSE_TAG@;
    assert(out@ =~= before + lines + after);
    lemma_stands_within(before, lines, after, told, at);
}

proof fn lemma_stands_within(
    before: Seq<char>,
    s: Seq<char>,
    after: Seq<char>,
    needle: Seq<char>,
    at: int,
)
    requires
        text::matches_at(s, needle, at),
    ensures
        text::matches_at(before + s + after, needle, before.len() + at),
{
    let all = before + s + after;
    let n = before.len() + at;
    assert(all.subrange(n, n + needle.len()) =~= s.subrange(at, at + needle.len()));
}

proof fn lemma_lines_hold(subagents: Seq<ContinuingSubagent>, n: int, i: int)
    requires
        0 <= i < n <= subagents.len(),
    ensures
        ({
            let subagent = subagents[i];
            let told = "\n- job "@ + subagent.job_id@ + ", session "@ + subagent.session_id@
                + ": "@;
            exists|at: int| #[trigger] text::matches_at(subagent_lines(subagents, n), told, at)
        }),
    decreases n,
{
    let subagent = subagents[i];
    let told = "\n- job "@ + subagent.job_id@ + ", session "@ + subagent.session_id@ + ": "@;
    let before = subagent_lines(subagents, n - 1);
    let last = subagents[n - 1];
    let name = escaped(json::json_quoted(last.name@));
    let line = subagent_line(last.job_id@, last.session_id@, name);
    let all = subagent_lines(subagents, n);
    assert(all == before + line);
    if i < n - 1 {
        lemma_lines_hold(subagents, n - 1, i);
        let at = choose|at: int| #[trigger] text::matches_at(before, told, at);
        assert(all =~= Seq::<char>::empty() + before + line);
        lemma_stands_within(Seq::empty(), before, line, told, at);
    } else {
        assert(told.subrange(0, told.len() as int) =~= told);
        assert(text::matches_at(told, told, 0));
        assert(all =~= before + told + name);
        lemma_stands_within(before, told, name, told, 0);
    }
}

/// A message that does not begin with the tag counts no attempt.
pub proof fn other_messages_count_no_attempt(content: &str, attempt: Option<u32>)
    requires
        call_ensures(service_restart_attempt, (content,), attempt),
        !text::matches_at(text::trim_start(content@), "<service-restart"@, 0),
    ensures
        attempt is None,
{
}

/// An angle bracket is written as its escape, and every other character as
/// itself, in order.
pub proof fn each_bracket_is_escaped(text: &str, longer: &str, c: char, out: String, more: String)
    requires
        call_ensures(escape_brackets, (text,), out),
        call_ensures(escape_brackets, (longer,), more),
        longer@ == text@.push(c),
    ensures
        text@.len() == 0 ==> out@.len() == 0,
        more@ == out@ + (if c == '<' {
            "\\u003c"@
        } else if c == '>' {
            "\\u003e"@
        } else {
            seq![c]
        }),
{
    assert(longer@.drop_last() =~= text@);
    assert(out@.push(c) =~= out@ + seq![c]);
}

} // verus!
