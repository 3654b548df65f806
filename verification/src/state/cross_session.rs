//! The envelope of a message that an AI sent from another session.
//!
//! ```text
//! <cross-session-message from="name" session="id">
//! Sent by the AI in another session, not by the user.
//! text
//! </cross-session-message>
//! ```

use vstd::prelude::*;

use crate::i18n::{self, text_for, Locale};
use crate::json::{self, read_json, JsonShape, JsonView};
use crate::text::{
    self, chars_of, head, replace_all, rfind_str, string_of, strip_end, strip_start, tail,
    without_leading_space, without_trailing_space,
};

verus! {

/// The opening tag up to its attributes.
pub const CROSS_SESSION_MESSAGE_TAG: &'static str = "<cross-session-message";

pub const CROSS_SESSION_CLOSE_TAG: &'static str = "</cross-session-message>";

/// Who sent the message, for the model that reads it.
pub const CROSS_SESSION_SENDER_NOTE: &'static str = "Sent by the AI in another session, not by the user.";

/// A message from another session.
#[derive(Debug, PartialEq, Eq)]
pub struct CrossSessionMessage {
    pub from_name: String,
    pub from_session: String,
    pub body: String,
}

/// Where the quote stands that closes a string literal, `i` characters into
/// it: the first one without a backslash in force before it.
pub open spec fn closing_quote(s: Seq<char>, i: int, escaped: bool) -> Option<int>
    decreases s.len() - i,
{
    if i < 0 || i >= s.len() {
        None
    } else if s[i] == '\\' && !escaped {
        closing_quote(s, i + 1, true)
    } else if s[i] == '"' && !escaped {
        Some(i)
    } else {
        closing_quote(s, i + 1, false)
    }
}

/// The literal that attribute `key` at the start of `input` has, without its
/// quotes, and what follows the attribute.
pub open spec fn attr_literal(input: Seq<char>, key: Seq<char>) -> Option<(Seq<char>, Seq<char>)> {
    match text::strip_prefix(text::trim_start(input), key) {
        Some(rest) => match text::strip_prefix(rest, "=\""@) {
            Some(rest) => match closing_quote(rest, 0, false) {
                Some(at) => Some((rest.take(at), rest.skip(at + 1))),
                None => None,
            },
            None => None,
        },
        None => None,
    }
}

/// The string that a literal without its quotes stands for.
pub open spec fn unquoted(literal: Seq<char>) -> Option<Seq<char>> {
    json::as_text(json::json_shape("\""@ + literal + "\""@))
}

/// What the attributes of a message hold, as literals, and what follows them.
pub open spec fn message_attrs(content: Seq<char>) -> Option<(Seq<char>, Seq<char>, Seq<char>)> {
    match text::strip_prefix(text::trim_start(content), CROSS_SESSION_MESSAGE_TAG@) {
        Some(rest) => match attr_literal(rest, "from"@) {
            Some((from, rest)) => match attr_literal(rest, "session"@) {
                Some((session, rest)) => match text::strip_prefix(text::trim_start(rest), ">"@) {
                    Some(rest) => Some((from, session, rest)),
                    None => None,
                },
                None => None,
            },
            None => None,
        },
        None => None,
    }
}

/// `s` without one line break at its start.
pub open spec fn after_break(s: Seq<char>) -> Seq<char> {
    match text::strip_prefix(s, "\n"@) {
        Some(rest) => rest,
        None => s,
    }
}

/// `s` without the line breaks at its end.
pub open spec fn before_breaks(s: Seq<char>) -> Seq<char>
    decreases s.len(),
{
    if s.len() > 0 && s.last() == '\n' {
        before_breaks(s.drop_last())
    } else {
        s
    }
}

/// The text in a message, given what follows its opening tag.
pub open spec fn message_body(s: Seq<char>) -> Seq<char> {
    let s = after_break(s);
    let s = match text::strip_prefix(s, CROSS_SESSION_SENDER_NOTE@) {
        Some(rest) => after_break(rest),
        None => s,
    };
    let s = text::trim_end(s);
    before_breaks(
        match text::strip_suffix(s, CROSS_SESSION_CLOSE_TAG@) {
            Some(body) => body,
            None => s,
        },
    )
}

/// The message that `content` holds: the name and the session it came from and
/// its text. `None` where there is none or its envelope is broken.
pub open spec fn message_of(content: Seq<char>) -> Option<(Seq<char>, Seq<char>, Seq<char>)> {
    match message_attrs(content) {
        Some((from, session, rest)) => match (unquoted(from), unquoted(session)) {
            (Some(from), Some(session)) => Some((from, session, message_body(rest))),
            _ => None,
        },
        None => None,
    }
}

/// Where the quote stands that closes a string literal.
fn find_closing_quote(chars: &Vec<char>) -> (at: Option<usize>)
    ensures
        text::opt_at(at) == closing_quote(chars@, 0, false),
        at is Some ==> at->Some_0 < chars.len(),
{
    let mut escaped = false;
    let mut i: usize = 0;
    while i < chars.len()
        invariant
            i <= chars@.len(),
            closing_quote(chars@, 0, false) == closing_quote(chars@, i as int, escaped),
        decreases chars@.len() - i,
    {
        let c = chars[i];
        if c == '\\' && !escaped {
            escaped = true;
        } else if c == '"' && !escaped {
            return Some(i);
        } else {
            escaped = false;
        }
        i += 1;
    }
    None
}

/// The literal that attribute `key` has, and what follows the attribute.
fn take_attr(input: &Vec<char>, key: &str) -> (r: Option<(Vec<char>, Vec<char>)>)
    ensures
        match r {
            Some((literal, rest)) => attr_literal(input@, key@) == Some((literal@, rest@)),
            None => attr_literal(input@, key@) is None,
        },
{
    let rest = match strip_start(&without_leading_space(input), key) {
        Some(rest) => rest,
        None => return None,
    };
    let rest = match strip_start(&rest, "=\"") {
        Some(rest) => rest,
        None => return None,
    };
    match find_closing_quote(&rest) {
        Some(at) => Some((head(&rest, at), tail(&rest, at + 1))),
        None => None,
    }
}

/// The string that a literal without its quotes stands for.
fn unquote(literal: &Vec<char>) -> (value: Option<String>)
    ensures
        json::opt_text(value) == unquoted(literal@),
{
    let mut quoted = "\"".to_owned();
    quoted.append(string_of(literal).as_str());
    quoted.append("\"");
    match read_json(quoted.as_str()) {
        Some(JsonShape::Text(value)) => Some(value),
        _ => None,
    }
}

/// The text without one line break at its start.
fn without_break(chars: Vec<char>) -> (out: Vec<char>)
    ensures
        out@ == after_break(chars@),
{
    match strip_start(&chars, "\n") {
        Some(rest) => rest,
        None => chars,
    }
}

/// The text in a message, given what follows its opening tag.
pub fn read_message_body(chars: Vec<char>) -> (body: String)
    ensures
        body@ == message_body(chars@),
{
    let chars = without_break(chars);
    let chars = match strip_start(&chars, CROSS_SESSION_SENDER_NOTE) {
        Some(rest) => without_break(rest),
        None => chars,
    };
    let chars = without_trailing_space(&chars);
    let chars = match strip_end(&chars, CROSS_SESSION_CLOSE_TAG) {
        Some(body) => body,
        None => chars,
    };
    let ghost whole = chars@;
    let mut n: usize = chars.len();
    proof {
        assert(whole.take(n as int) =~= whole);
    }
    while n > 0 && chars[n - 1] == '\n'
        invariant
            n <= chars@.len(),
            chars@ == whole,
            before_breaks(whole) == before_breaks(whole.take(n as int)),
        decreases n,
    {
        assert(whole.take(n as int).drop_last() =~= whole.take(n - 1));
        n -= 1;
    }
    string_of(&head(&chars, n))
}

/// The attributes of a message, as literals, and what follows them.
fn take_attrs(content: &str) -> (r: Option<(Vec<char>, Vec<char>, Vec<char>)>)
    ensures
        match r {
            Some((from, session, rest)) => message_attrs(content@) == Some(
                (from@, session@, rest@),
            ),
            None => message_attrs(content@) is None,
        },
{
    let rest = match strip_start(
        &without_leading_space(&chars_of(content)),
        CROSS_SESSION_MESSAGE_TAG,
    ) {
        Some(rest) => rest,
        None => return None,
    };
    let (from, rest) = match take_attr(&rest, "from") {
        Some(found) => found,
        None => return None,
    };
    let (session, rest) = match take_attr(&rest, "session") {
        Some(found) => found,
        None => return None,
    };
    match strip_start(&without_leading_space(&rest), ">") {
        Some(rest) => Some((from, session, rest)),
        None => None,
    }
}

/// The message that `content` holds.
pub fn parse_cross_session_message(content: &str) -> (message: Option<CrossSessionMessage>)
    ensures
        match message {
            Some(m) => message_of(content@) == Some((m.from_name@, m.from_session@, m.body@)),
            None => message_of(content@) is None,
        },
{
    let (from, session, rest) = match take_attrs(content) {
        Some(found) => found,
        None => return None,
    };
    let from_name = match unquote(&from) {
        Some(value) => value,
        None => return None,
    };
    let from_session = match unquote(&session) {
        Some(value) => value,
        None => return None,
    };
    Some(CrossSessionMessage { from_name, from_session, body: read_message_body(rest) })
}

/// The short form of a session id: what follows its last underscore, or the
/// whole id where nothing does.
pub open spec fn short_id(id: Seq<char>) -> Seq<char> {
    match text::rfind(id, "_"@) {
        Some(at) => if at + 1 < id.len() {
            id.skip(at + 1)
        } else {
            id
        },
        None => id,
    }
}

/// The short form of a session id.
pub fn short_session_id(session_id: &str) -> (short: String)
    ensures
        short@ == short_id(session_id@),
{
    let chars = chars_of(session_id);
    proof {
        reveal_strlit("_");
    }
    match rfind_str(&chars, "_") {
        Some(at) => if at + 1 < chars.len() {
            string_of(&tail(&chars, at + 1))
        } else {
            session_id.to_owned()
        },
        None => session_id.to_owned(),
    }
}

/// The line above a message that came in: the name and then the short id are
/// put in the wording.
pub open spec fn headline(name: Seq<char>, session: Seq<char>, locale: Locale) -> Seq<char> {
    text::replaced(
        text::replaced(
            i18n::wording(locale, "Message from {name} ({id})", "从 {name}（{id}）收到消息")@,
            "{name}"@,
            name,
        ),
        "{id}"@,
        short_id(session),
    )
}

/// The line above a message that came in.
pub fn cross_session_headline(from_name: &str, from_session: &str, locale: Locale) -> (line: String)
    ensures
        line@ == headline(from_name@, from_session@, locale),
{
    proof {
        reveal_strlit("{name}");
        reveal_strlit("{id}");
    }
    let wording = text_for(
        locale,
        "Message from {name} ({id})",
        "从 {name}（{id}）收到消息",
    );
    let named = replace_all(&chars_of(wording), "{name}", from_name);
    replace_all(&chars_of(named.as_str()), "{id}", short_session_id(from_session).as_str())
}

/// The short form of a session id is never empty unless the id is.
pub proof fn short_ids_name_something(id: Seq<char>)
    requires
        id.len() > 0,
    ensures
        short_id(id).len() > 0,
{
    reveal_strlit("_");
    text::lemma_rfind_to(id, "_"@, id.len() - 1);
}

/// Shortening a session id again changes nothing.
pub proof fn short_ids_stay_short(id: Seq<char>)
    requires
        short_id(id) != id,
    ensures
        short_id(short_id(id)) == short_id(id),
{
    reveal_strlit("_");
    text::lemma_rfind_to(id, "_"@, id.len() - 1);
    let at = text::rfind(id, "_"@)->Some_0;
    let short = id.skip(at + 1);
    text::lemma_rfind_to(short, "_"@, short.len() - 1);
    if text::rfind(short, "_"@) is Some {
        let k = text::rfind(short, "_"@)->Some_0;
        assert(short.subrange(k, k + 1) =~= id.subrange(at + 1 + k, at + 2 + k));
        assert(text::matches_at(id, "_"@, at + 1 + k));
    }
}

// ---------------------------------------------------------------------------
// Laws
// ---------------------------------------------------------------------------

/// What stands between the note and the closing tag is read as the text,
/// without the line breaks around it.
pub proof fn the_text_of_a_message_is_read(words: Seq<char>)
    requires
        words.len() > 0,
        words.last() != '\n',
    ensures
        message_body(
            "\nSent by the AI in another session, not by the user.\n"@ + words
                + "\n</cross-session-message>"@,
        ) == words,
{
    reveal_strlit("\n");
    reveal_strlit("Sent by the AI in another session, not by the user.");
    reveal_strlit("\nSent by the AI in another session, not by the user.\n");
    reveal_strlit("\n</cross-session-message>");
    reveal_strlit("</cross-session-message>");
    let note = "Sent by the AI in another session, not by the user."@;
    let close = "</cross-session-message>"@;
    let line = seq!['\n'];
    assert("\n"@ =~= line);
    assert("\nSent by the AI in another session, not by the user.\n"@ =~= line + note + line);
    assert("\n</cross-session-message>"@ =~= line + close);
    let end = words + line + close;
    let s = line + (note + (line + end));
    assert("\nSent by the AI in another session, not by the user.\n"@ + words
        + "\n</cross-session-message>"@ =~= s);
    assert(s.subrange(0, 1) =~= "\n"@);
    let t = note + (line + end);
    assert(s.skip(1) =~= t);
    assert(t.subrange(0, note.len() as int) =~= note);
    assert(t.skip(note.len() as int) =~= line + end);
    assert((line + end).subrange(0, 1) =~= "\n"@);
    assert((line + end).skip(1) =~= end);
    assert(end.last() == '>');
    assert(!text::is_space(end.last())) by {
        text::words_are_no_space('>');
    }
    assert(text::trim_end(end) == end);
    let n = end.len() - close.len();
    assert(end.subrange(n, end.len() as int) =~= close);
    assert(end.take(n) =~= words + line);
    assert((words + line).drop_last() =~= words);
    assert(before_breaks(words) == words);
    assert(before_breaks(words + line) == words);
}

/// An attribute is what stands between its quotes, and what follows it stands
/// behind them.
pub proof fn an_attribute_is_what_is_quoted(key: Seq<char>, literal: Seq<char>, rest: Seq<char>)
    requires
        key.len() > 0,
        !text::is_space(key[0]),
        forall|i: int|
            0 <= i < literal.len() ==> #[trigger] literal[i] != '"' && literal[i] != '\\',
    ensures
        attr_literal(seq![' '] + key + "=\""@ + literal + seq!['"'] + rest, key) == Some(
            (literal, rest),
        ),
{
    reveal_strlit("=\"");
    let input = seq![' '] + key + "=\""@ + literal + seq!['"'] + rest;
    let a = key + "=\""@ + literal + seq!['"'] + rest;
    text::words_are_no_space(' ');
    assert(input[0] == ' ');
    assert(input.skip(1) =~= a);
    assert(a[0] == key[0]);
    assert(text::trim_start(input) == text::trim_start(a));
    assert(text::trim_start(a) == a);
    assert(a.subrange(0, key.len() as int) =~= key);
    let b = "=\""@ + literal + seq!['"'] + rest;
    assert(a.skip(key.len() as int) =~= b);
    assert(b.subrange(0, 2) =~= "=\""@);
    let c = literal + seq!['"'] + rest;
    assert(b.skip(2) =~= c);
    lemma_closing(c, literal.len() as int, 0);
    assert(c.take(literal.len() as int) =~= literal);
    assert(c.skip(literal.len() as int + 1) =~= rest);
}

proof fn lemma_closing(s: Seq<char>, at: int, i: int)
    requires
        0 <= i <= at < s.len(),
        s[at] == '"',
        forall|k: int| 0 <= k < at ==> #[trigger] s[k] != '"' && s[k] != '\\',
    ensures
        closing_quote(s, i, false) == Some(at),
    decreases at - i,
{
    if i < at {
        assert(s[i] != '"' && s[i] != '\\');
        lemma_closing(s, at, i + 1);
    }
}

/// The short form of a session id is what follows its last underscore, and the
/// id where there is none.
pub proof fn a_short_id_follows_the_last_underscore(id: &str, short: String, start: Seq<char>, end: Seq<char>)
    requires
        call_ensures(short_session_id, (id,), short),
        forall|i: int| 0 <= i < end.len() ==> #[trigger] end[i] != '_',
        end.len() > 0,
    ensures
        id@ == start.push('_') + end ==> short@ == end,
        id@ == end ==> short@ == end,
{
    reveal_strlit("_");
    let s = id@;
    text::lemma_rfind_to(s, "_"@, s.len() - 1);
    if s == start.push('_') + end {
        let n = start.len() as int;
        assert(s.subrange(n, n + 1) =~= "_"@);
        assert(text::matches_at(s, "_"@, n));
        let at = text::rfind(s, "_"@)->0;
        if at > n {
            assert(s.subrange(at, at + 1)[0] == s[at]);
            assert(end[at - n - 1] == '_');
        }
        assert(s.skip(n + 1) =~= end);
    } else if s == end {
        if let Some(at) = text::rfind(s, "_"@) {
            assert(s.subrange(at, at + 1)[0] == s[at]);
            assert(end[at] == '_');
        }
    }
}

/// A message in its envelope is read as it was sent: the name and the session
/// that are quoted, and the text between the note and the closing tag.
pub proof fn a_message_is_read_as_it_was_sent(
    content: &str,
    message: Option<CrossSessionMessage>,
    from: Seq<char>,
    session: Seq<char>,
    name: Seq<char>,
    id: Seq<char>,
    words: Seq<char>,
)
    requires
        call_ensures(parse_cross_session_message, (content,), message),
        forall|i: int| 0 <= i < from.len() ==> #[trigger] from[i] != '"' && from[i] != '\\',
        forall|i: int| 0 <= i < session.len() ==> #[trigger] session[i] != '"' && session[i] != '\\',
        json::json_shape("\""@ + from + "\""@) == Some(JsonView::Text(name)),
        json::json_shape("\""@ + session + "\""@) == Some(JsonView::Text(id)),
        words.len() > 0,
        words.last() != '\n',
        content@ == "<cross-session-message"@ + (seq![' '] + "from"@ + "=\""@ + from + seq!['"'] + (
        seq![' '] + "session"@ + "=\""@ + session + seq!['"'] + (seq!['>'] + (
        "\nSent by the AI in another session, not by the user.\n"@ + words
            + "\n</cross-session-message>"@)))),
    ensures
        message matches Some(m) && m.from_name@ == name && m.from_session@ == id && m.body@ == words,
{
    reveal_strlit("<cross-session-message");
    reveal_strlit("from");
    reveal_strlit("session");
    reveal_strlit(">");
    let tag = "<cross-session-message"@;
    let end = "\nSent by the AI in another session, not by the user.\n"@ + words
        + "\n</cross-session-message>"@;
    let closed = seq!['>'] + end;
    let second = seq![' '] + "session"@ + "=\""@ + session + seq!['"'] + closed;
    let first = seq![' '] + "from"@ + "=\""@ + from + seq!['"'] + second;
    assert(content@ == tag + first);
    text::words_are_no_space('<');
    text::words_are_no_space('f');
    text::words_are_no_space('s');
    text::words_are_no_space('>');
    assert(content@[0] == '<');
    assert(text::trim_start(content@) == content@);
    assert(content@.subrange(0, tag.len() as int) =~= tag);
    assert(content@.skip(tag.len() as int) =~= first);
    an_attribute_is_what_is_quoted("from"@, from, second);
    an_attribute_is_what_is_quoted("session"@, session, closed);
    assert(closed[0] == '>');
    assert(text::trim_start(closed) == closed);
    assert(">"@ =~= seq!['>']);
    assert(closed.subrange(0, 1) =~= ">"@);
    assert(closed.skip(1) =~= end);
    the_text_of_a_message_is_read(words);
}

/// A text that does not begin with the tag, blanks aside, is no message.
pub proof fn other_texts_are_no_messages(content: &str, message: Option<CrossSessionMessage>)
    requires
        call_ensures(parse_cross_session_message, (content,), message),
        !("<cross-session-message"@ =~= text::trim_start(content@).take(
            "<cross-session-message"@.len() as int,
        )) || text::trim_start(content@).len() < "<cross-session-message"@.len(),
    ensures
        message is None,
{
    let s = text::trim_start(content@);
    let tag = "<cross-session-message"@;
    if text::matches_at(s, tag, 0) {
        assert(s.subrange(0, tag.len() as int) =~= s.take(tag.len() as int));
    }
}

} // verus!
