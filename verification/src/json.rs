//! Structured text read one level at a time.
//!
//! A JSON document is read into a [`JsonShape`]: what the value is, with every
//! value nested in it kept as JSON text of its own. Logic that needs a nested
//! value reads that text in turn.

use serde_json::Value;
use vstd::prelude::*;

use crate::text::same_text;

verus! {

/// One level of a JSON document.
#[derive(Debug)]
pub enum JsonShape {
    Null,
    Bool(bool),
    Number,
    Text(String),
    /// The elements, each as JSON text.
    List(Vec<String>),
    /// The members, each a name and its value as JSON text.
    Object(Vec<(String, String)>),
}

/// What a [`JsonShape`] holds.
pub enum JsonView {
    Null,
    Bool(bool),
    Number,
    Text(Seq<char>),
    List(Seq<Seq<char>>),
    Object(Seq<(Seq<char>, Seq<char>)>),
}

/// The texts held by a list of strings.
pub open spec fn texts(items: Seq<String>) -> Seq<Seq<char>> {
    items.map_values(|s: String| s@)
}

/// The names and values held by a list of string pairs.
pub open spec fn text_pairs(items: Seq<(String, String)>) -> Seq<(Seq<char>, Seq<char>)> {
    items.map_values(|p: (String, String)| (p.0@, p.1@))
}

impl View for JsonShape {
    type V = JsonView;

    open spec fn view(&self) -> JsonView {
        match self {
            JsonShape::Null => JsonView::Null,
            JsonShape::Bool(b) => JsonView::Bool(*b),
            JsonShape::Number => JsonView::Number,
            JsonShape::Text(s) => JsonView::Text(s@),
            JsonShape::List(items) => JsonView::List(texts(items@)),
            JsonShape::Object(members) => JsonView::Object(text_pairs(members@)),
        }
    }
}

/// What one level of the JSON document `text` is, or `None` where `text` is no
/// JSON document.
pub uninterp spec fn json_shape(text: Seq<char>) -> Option<JsonView>;

/// `serde_json::from_str::<serde_json::Value>`, one level of it: the result is
/// a function of the text alone, named [`json_shape`]. Nested values are given
/// back as the text `serde_json::Value` displays itself as.
#[verifier::external_body]
pub(crate) fn read_json(text: &str) -> (shape: Option<JsonShape>)
    ensures
        shape is Some <==> json_shape(text@) is Some,
        shape is Some ==> json_shape(text@) == Some(shape->Some_0@),
{
    match serde_json::from_str::<Value>(text).ok()? {
        Value::Null => Some(JsonShape::Null),
        Value::Bool(b) => Some(JsonShape::Bool(b)),
        Value::Number(_) => Some(JsonShape::Number),
        Value::String(s) => Some(JsonShape::Text(s)),
        Value::Array(items) => Some(JsonShape::List(items.iter().map(|v| v.to_string()).collect())),
        Value::Object(members) => Some(
            JsonShape::Object(members.iter().map(|(k, v)| (k.clone(), v.to_string())).collect()),
        ),
    }
}

/// `text` as a JSON string literal.
pub uninterp spec fn json_quoted(text: Seq<char>) -> Seq<char>;

/// `serde_json::to_string` on a string: its JSON literal, a function of the
/// string alone, named [`json_quoted`]. Reading the literal gives the string
/// back.
#[verifier::external_body]
pub(crate) fn quote_json(text: &str) -> (literal: String)
    ensures
        literal@ == json_quoted(text@),
        json_shape(literal@) == Some(JsonView::Text(text@)),
{
    serde_json::to_string(text).unwrap_or_default()
}

/// The value of the first member called `key`, if there is one.
pub open spec fn named(members: Seq<(Seq<char>, Seq<char>)>, key: Seq<char>) -> Option<Seq<char>>
    decreases members.len(),
{
    if members.len() == 0 {
        None
    } else if members[0].0 == key {
        Some(members[0].1)
    } else {
        named(members.skip(1), key)
    }
}

/// The JSON text of member `key`; only objects have members.
pub open spec fn member(shape: JsonView, key: Seq<char>) -> Option<Seq<char>> {
    match shape {
        JsonView::Object(members) => named(members, key),
        _ => None,
    }
}

/// The string a shape is, if it is one.
pub open spec fn as_text(shape: Option<JsonView>) -> Option<Seq<char>> {
    match shape {
        Some(JsonView::Text(s)) => Some(s),
        _ => None,
    }
}

/// The string that member `key` of a shape is, if it is one.
pub open spec fn member_text(shape: JsonView, key: Seq<char>) -> Option<Seq<char>> {
    match member(shape, key) {
        Some(text) => as_text(json_shape(text)),
        None => None,
    }
}

/// An optional string as an optional text.
pub open spec fn opt_text(s: Option<String>) -> Option<Seq<char>> {
    match s {
        Some(s) => Some(s@),
        None => None,
    }
}

impl JsonShape {
    /// The JSON text of member `key`, where this is an object that has one.
    pub fn get(&self, key: &str) -> (value: Option<String>)
        ensures
            opt_text(value) == member(self@, key@),
    {
        match self {
            JsonShape::Object(members) => {
                let ghost all = text_pairs(members@);
                let mut i: usize = 0;
                proof {
                    assert(all.skip(0) =~= all);
                }
                while i < members.len()
                    invariant
                        i <= members@.len(),
                        all == text_pairs(members@),
                        self@ == JsonView::Object(all),
                        named(all, key@) == named(all.skip(i as int), key@),
                    decreases members@.len() - i,
                {
                    assert(all.skip(i as int)[0] == all[i as int]);
                    if same_text(members[i].0.as_str(), key) {
                        return Some(members[i].1.clone());
                    }
                    assert(all.skip(i as int).skip(1) =~= all.skip(i + 1));
                    i += 1;
                }
                None
            },
            _ => None,
        }
    }

    /// The string that member `key` is, where this is an object that has one
    /// and it is a string.
    pub fn get_text(&self, key: &str) -> (value: Option<String>)
        ensures
            opt_text(value) == member_text(self@, key@),
    {
        match self.get(key) {
            Some(text) => match read_json(text.as_str()) {
                Some(JsonShape::Text(s)) => Some(s),
                _ => None,
            },
            None => None,
        }
    }
}

/// The texts of JSON strings, where all are strings.
pub open spec fn all_texts(items: Seq<Seq<char>>) -> Option<Seq<Seq<char>>>
    decreases items.len(),
{
    if items.len() == 0 {
        Some(Seq::empty())
    } else {
        match (all_texts(items.drop_last()), json_shape(items.last())) {
            (Some(rest), Some(JsonView::Text(s))) => Some(rest.push(s)),
            _ => None,
        }
    }
}

/// The texts of a JSON list of strings. Anything else is none.
pub open spec fn text_list(raw: Seq<char>) -> Option<Seq<Seq<char>>> {
    match json_shape(raw) {
        Some(JsonView::List(items)) => all_texts(items),
        _ => None,
    }
}

/// The texts that an optional list holds.
pub open spec fn opt_texts(list: Option<Vec<String>>) -> Option<Seq<Seq<char>>> {
    match list {
        Some(list) => Some(texts(list@)),
        None => None,
    }
}

/// The texts of a JSON list of strings.
pub fn read_text_list(raw: &str) -> (list: Option<Vec<String>>)
    ensures
        opt_texts(list) == text_list(raw@),
{
    let items = match read_json(raw) {
        Some(JsonShape::List(items)) => items,
        _ => {
            return None;
        },
    };
    let mut list: Vec<String> = Vec::new();
    let ghost all = texts(items@);
    let mut i: usize = 0;
    proof {
        assert(all.take(0) =~= Seq::empty());
        assert(texts(list@) =~= Seq::empty());
    }
    while i < items.len()
        invariant
            i <= items@.len(),
            all == texts(items@),
            all_texts(all.take(i as int)) == Some(texts(list@)),
            text_list(raw@) == all_texts(all),
        decreases items@.len() - i,
    {
        proof {
            assert(all.take(i + 1).drop_last() =~= all.take(i as int));
            assert(all.take(i + 1).last() == items@[i as int]@);
        }
        match read_json(items[i].as_str()) {
            Some(JsonShape::Text(s)) => {
                let ghost before = list@;
                let ghost said = s@;
                list.push(s);
                assert(texts(list@) =~= texts(before).push(said));
            },
            _ => {
                proof {
                    lemma_not_texts(all, i + 1);
                }
                return None;
            },
        }
        i += 1;
    }
    assert(all.take(all.len() as int) =~= all);
    Some(list)
}

/// A list that begins with what is no list of strings is none.
proof fn lemma_not_texts(items: Seq<Seq<char>>, n: int)
    requires
        0 <= n <= items.len(),
        all_texts(items.take(n)) is None,
    ensures
        all_texts(items) is None,
    decreases items.len(),
{
    if n == items.len() {
        assert(items.take(n) =~= items);
    } else {
        assert(items.drop_last().take(n) =~= items.take(n));
        lemma_not_texts(items.drop_last(), n);
    }
}

/// A text is in a list when it is among what the list holds.
pub proof fn lemma_listed(list: Seq<String>, id: Seq<char>)
    ensures
        crate::text::listed(list, id) == texts(list).contains(id),
{
    let held = texts(list);
    if crate::text::listed(list, id) {
        let i = choose|i: int| 0 <= i < list.len() && (#[trigger] list[i])@ == id;
        assert(held[i] == id);
    }
    if held.contains(id) {
        let i = choose|i: int| 0 <= i < held.len() && held[i] == id;
        assert(list[i]@ == id);
    }
}

// ---------------------------------------------------------------------------
// Laws
// ---------------------------------------------------------------------------

/// The value of a member is that of the first member with its name, and there
/// is none where no member has it or the value is no object. It is a text
/// where it is read as one.
pub proof fn members_are_found_by_name(
    shape: &JsonShape,
    key: &str,
    value: Option<String>,
    said: Option<String>,
    i: int,
)
    requires
        call_ensures(JsonShape::get, (shape, key), value),
        call_ensures(JsonShape::get_text, (shape, key), said),
    ensures
        match shape {
            JsonShape::Object(members) => {
                &&& 0 <= i < members@.len() && members@[i].0@ == key@ && (forall|k: int|
                    0 <= k < i ==> (#[trigger] members@[k]).0@ != key@) ==> (value matches Some(
                    text,
                ) && text@ == members@[i].1@)
                &&& (forall|k: int| 0 <= k < members@.len() ==> (#[trigger] members@[k]).0@ != key@)
                    ==> value is None
            },
            _ => value is None,
        },
        value is None ==> said is None,
        value matches Some(text) ==> match json_shape(text@) {
            Some(JsonView::Text(s)) => said matches Some(t) && t@ == s,
            _ => said is None,
        },
{
    if let JsonShape::Object(members) = shape {
        let all = text_pairs(members@);
        assert forall|k: int| 0 <= k < members@.len() implies (#[trigger] all[k]) == (
            members@[k].0@,
            members@[k].1@,
        ) by {}
        if 0 <= i < members@.len() && members@[i].0@ == key@ && (forall|k: int|
            0 <= k < i ==> (#[trigger] members@[k]).0@ != key@) {
            assert forall|k: int| 0 <= k < i implies (#[trigger] all[k]).0 != key@ by {
                assert(members@[k].0@ != key@);
            }
            lemma_first_named(all, key@, i);
        }
        if forall|k: int| 0 <= k < members@.len() ==> (#[trigger] members@[k]).0@ != key@ {
            assert forall|k: int| 0 <= k < all.len() implies (#[trigger] all[k]).0 != key@ by {
                assert(members@[k].0@ != key@);
            }
            lemma_none_named(all, key@);
        }
    }
}

proof fn lemma_first_named(members: Seq<(Seq<char>, Seq<char>)>, key: Seq<char>, i: int)
    requires
        0 <= i < members.len(),
        members[i].0 == key,
        forall|k: int| 0 <= k < i ==> (#[trigger] members[k]).0 != key,
    ensures
        named(members, key) == Some(members[i].1),
    decreases i,
{
    if i > 0 {
        let rest = members.skip(1);
        assert(rest[i - 1] == members[i]);
        assert forall|k: int| 0 <= k < i - 1 implies (#[trigger] rest[k]).0 != key by {
            assert(rest[k] == members[k + 1]);
        }
        lemma_first_named(rest, key, i - 1);
    }
}

proof fn lemma_none_named(members: Seq<(Seq<char>, Seq<char>)>, key: Seq<char>)
    requires
        forall|k: int| 0 <= k < members.len() ==> (#[trigger] members[k]).0 != key,
    ensures
        named(members, key) is None,
    decreases members.len(),
{
    if members.len() > 0 {
        let rest = members.skip(1);
        assert forall|k: int| 0 <= k < rest.len() implies (#[trigger] rest[k]).0 != key by {
            assert(rest[k] == members[k + 1]);
        }
        lemma_none_named(rest, key);
    }
}

/// A list of texts is read where the document is a list and each element is a
/// text, and has the texts in order.
pub proof fn lists_hold_their_texts(raw: &str, list: Option<Vec<String>>)
    requires
        call_ensures(read_text_list, (raw,), list),
    ensures
        match json_shape(raw@) {
            Some(JsonView::List(items)) => match list {
                Some(texts) => texts@.len() == items.len() && forall|i: int|
                    0 <= i < items.len() ==> json_shape(#[trigger] items[i]) == Some(
                        JsonView::Text(texts@[i]@),
                    ),
                None => exists|i: int|
                    0 <= i < items.len() && !(json_shape(#[trigger] items[i]) matches Some(
                        JsonView::Text(_),
                    )),
            },
            _ => list is None,
        },
{
    if let Some(JsonView::List(items)) = json_shape(raw@) {
        lemma_all_texts(items);
        if let Some(held) = list {
            assert(texts(held@) == all_texts(items)->Some_0);
            assert forall|i: int| 0 <= i < items.len() implies json_shape(#[trigger] items[i])
                == Some(JsonView::Text(held@[i]@)) by {
                assert(texts(held@)[i] == held@[i]@);
            }
        }
    }
}

proof fn lemma_all_texts(items: Seq<Seq<char>>)
    ensures
        match all_texts(items) {
            Some(texts) => texts.len() == items.len() && forall|i: int|
                0 <= i < items.len() ==> json_shape(#[trigger] items[i]) == Some(
                    JsonView::Text(texts[i]),
                ),
            None => exists|i: int|
                0 <= i < items.len() && !(json_shape(#[trigger] items[i]) matches Some(
                    JsonView::Text(_),
                )),
        },
    decreases items.len(),
{
    if items.len() > 0 {
        let less = items.drop_last();
        lemma_all_texts(less);
        assert(forall|i: int| 0 <= i < less.len() ==> less[i] == #[trigger] items[i]);
        if all_texts(less) is None {
            let i = choose|i: int|
                0 <= i < less.len() && !(json_shape(#[trigger] less[i]) matches Some(
                    JsonView::Text(_),
                ));
            assert(items[i] == less[i]);
        } else if all_texts(items) is None {
            assert(items[items.len() - 1] == items.last());
        } else {
            assert forall|i: int| 0 <= i < items.len() implies json_shape(#[trigger] items[i])
                == Some(JsonView::Text(all_texts(items)->Some_0[i])) by {
                if i < less.len() {
                    assert(less[i] == items[i]);
                }
            }
        }
    }
}

} // verus!
