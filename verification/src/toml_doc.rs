//! TOML documents.

use vstd::prelude::*;

use crate::json::{self, JsonView};

verus! {

/// A TOML document as JSON text, or what is said of a text that is no TOML
/// document.
pub uninterp spec fn toml_read(raw: Seq<char>) -> Result<Seq<char>, Seq<char>>;

/// A TOML document as JSON text, or `None` where the text is no TOML document.
pub open spec fn toml_json(raw: Seq<char>) -> Option<Seq<char>> {
    match toml_read(raw) {
        Ok(json) => Some(json),
        Err(_) => None,
    }
}

/// The texts of a result.
pub open spec fn result_texts(result: Result<String, String>) -> Result<Seq<char>, Seq<char>> {
    match result {
        Ok(text) => Ok(text@),
        Err(text) => Err(text@),
    }
}

/// `toml::from_str` into a `serde_json::Value`, and the text of the value or of
/// the error: a function of the document alone, named [`toml_read`]. TOML has
/// no null: a number that JSON cannot hold becomes one.
#[verifier::external_body]
pub(crate) fn toml_as_json(raw: &str) -> (json: Result<String, String>)
    ensures
        result_texts(json) == toml_read(raw@),
{
    match toml::from_str::<serde_json::Value>(raw) {
        Ok(value) => Ok(value.to_string()),
        Err(error) => Err(error.to_string()),
    }
}

/// The names and values of flags.
pub open spec fn flags_view(flags: Seq<(String, bool)>) -> Seq<(Seq<char>, bool)> {
    flags.map_values(|f: (String, bool)| (f.0@, f.1))
}

/// The names and texts of lists.
pub open spec fn lists_view(lists: Seq<(String, Vec<String>)>) -> Seq<(Seq<char>, Seq<Seq<char>>)> {
    lists.map_values(|l: (String, Vec<String>)| (l.0@, json::texts(l.1@)))
}

/// The flag with a name.
pub open spec fn flag_named(flags: Seq<(Seq<char>, bool)>, name: Seq<char>) -> Option<bool>
    decreases flags.len(),
{
    if flags.len() == 0 {
        None
    } else if flags[0].0 == name {
        Some(flags[0].1)
    } else {
        flag_named(flags.skip(1), name)
    }
}

/// The list with a name.
pub open spec fn list_named(lists: Seq<(Seq<char>, Seq<Seq<char>>)>, name: Seq<char>) -> Option<
    Seq<Seq<char>>,
>
    decreases lists.len(),
{
    if lists.len() == 0 {
        None
    } else if lists[0].0 == name {
        Some(lists[0].1)
    } else {
        list_named(lists.skip(1), name)
    }
}

/// Whether a JSON text is an object that holds these flags, and nothing else.
pub open spec fn holds_flags(raw: Seq<char>, flags: Seq<(Seq<char>, bool)>) -> bool {
    match json::json_shape(raw) {
        Some(JsonView::Object(fields)) => forall|name: Seq<char>|
            match (#[trigger] json::named(fields, name), flag_named(flags, name)) {
                (Some(value), Some(on)) => json::json_shape(value) == Some(JsonView::Bool(on)),
                (None, None) => true,
                _ => false,
            },
        _ => false,
    }
}

/// Whether a JSON text is an object that holds these lists of texts, and
/// nothing else.
pub open spec fn holds_lists(raw: Seq<char>, lists: Seq<(Seq<char>, Seq<Seq<char>>)>) -> bool {
    match json::json_shape(raw) {
        Some(JsonView::Object(fields)) => forall|name: Seq<char>|
            match (#[trigger] json::named(fields, name), list_named(lists, name)) {
                (Some(value), Some(items)) => json::text_list(value) == Some(items),
                (None, None) => true,
                _ => false,
            },
        _ => false,
    }
}

/// Whether no quote stands in a text more often in a row than is counted.
pub open spec fn quotes_few(s: Seq<char>) -> bool {
    forall|i: int|
        0 <= i && i + 256 <= s.len() ==> !#[trigger] all_same(s.subrange(i, i + 256), '\'') && !all_same(
            s.subrange(i, i + 256),
            '"',
        )
}

/// Whether a text is one character over and over.
pub open spec fn all_same(s: Seq<char>, c: char) -> bool {
    forall|i: int| 0 <= i < s.len() ==> #[trigger] s[i] == c
}

/// Whether the texts of lists can be written.
pub open spec fn writable(lists: Seq<(Seq<char>, Seq<Seq<char>>)>) -> bool {
    forall|l: int, i: int|
        0 <= l < lists.len() && 0 <= i < lists[l].1.len() ==> quotes_few(
            #[trigger] lists[l].1[i],
        )
}

/// A TOML document with two tables, one of flags and one of lists of texts.
pub uninterp spec fn toml_written(
    first: Seq<char>,
    flags: Seq<(Seq<char>, bool)>,
    second: Seq<char>,
    lists: Seq<(Seq<char>, Seq<Seq<char>>)>,
) -> Seq<char>;

/// `toml::to_string_pretty` on a document with two tables: its text, a
/// function of what the tables hold, named [`toml_written`]. Reading it gives
/// the tables back. A text with more than 255 quotes in a row is left out: the
/// `toml_write` crate counts them in eight bits.
#[verifier::external_body]
pub(crate) fn write_toml(
    first: &str,
    flags: &Vec<(String, bool)>,
    second: &str,
    lists: &Vec<(String, Vec<String>)>,
) -> (out: String)
    requires
        first@ != second@,
        forall|i: int, j: int|
            0 <= i < j < flags@.len() ==> (#[trigger] flags@[i]).0@ != (#[trigger] flags@[j]).0@,
        forall|i: int, j: int|
            0 <= i < j < lists@.len() ==> (#[trigger] lists@[i]).0@ != (#[trigger] lists@[j]).0@,
        writable(lists_view(lists@)),
    ensures
        out@ == toml_written(first@, flags_view(flags@), second@, lists_view(lists@)),
        match toml_json(out@) {
            Some(json) => match json::json_shape(json) {
                Some(JsonView::Object(fields)) => match (
                    json::named(fields, first@),
                    json::named(fields, second@),
                ) {
                    (Some(a), Some(b)) => holds_flags(a, flags_view(flags@)) && holds_lists(
                        b,
                        lists_view(lists@),
                    ),
                    _ => false,
                },
                _ => false,
            },
            None => false,
        },
{
    let on = flags.iter().map(|(k, v)| (k.clone(), toml::Value::Boolean(*v)));
    let of = lists.iter().map(|(k, v)| (k.clone(), toml::Value::from(v.clone())));
    let mut doc = toml::Table::new();
    doc.insert(first.to_string(), toml::Value::Table(on.collect()));
    doc.insert(second.to_string(), toml::Value::Table(of.collect()));
    toml::to_string_pretty(&doc).unwrap_or_default()
}

} // verus!
