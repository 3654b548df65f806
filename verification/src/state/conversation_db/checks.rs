//! What is checked and measured before a conversation is cut short, and where
//! a turn can be redone from.

use vstd::prelude::*;

use crate::json::{self, read_text_list};
use crate::text::{self, comes_before, push_signed, same_text};

use super::rows::{copy_opt, Checkpoint, CheckpointRow, DbError, LoadedItemRow};
use super::ConversationDb;

verus! {

// ---------------------------------------------------------------------------
// Loaded tools
// ---------------------------------------------------------------------------

/// What is loaded as a tool.
pub const LOADED_TOOL: &'static str = "tool";

/// Whether something loaded is a tool of a session.
pub open spec fn is_tool(row: LoadedItemRow, session: Seq<char>) -> bool {
    row.session_id@ == session && row.item.kind@ == LOADED_TOOL@
}

/// Whether two texts that may be missing hold the same.
pub open spec fn same_opt(a: Option<String>, b: Option<String>) -> bool {
    match (a, b) {
        (Some(a), Some(b)) => a@ == b@,
        (None, None) => true,
        _ => false,
    }
}

/// Where a tool goes among those that are listed, looking at the first `n`:
/// after those whose names do not come after its own.
pub open spec fn tool_place(
    rows: Seq<LoadedItemRow>,
    listed: Seq<usize>,
    name: Seq<char>,
    n: int,
) -> int
    decreases n,
{
    if n <= 0 {
        0
    } else if text::precedes(name, rows[listed[n - 1] as int].item.name@) {
        tool_place(rows, listed, name, n - 1)
    } else {
        n
    }
}

/// The places of the tools loaded in a session, by name, among the first `n`
/// rows. Those of one name are in the order of the rows.
pub open spec fn tools_by_name(rows: Seq<LoadedItemRow>, session: Seq<char>, n: int) -> Seq<usize>
    decreases n,
{
    if n <= 0 {
        Seq::empty()
    } else {
        let listed = tools_by_name(rows, session, n - 1);
        if is_tool(rows[n - 1], session) {
            listed.insert(
                tool_place(rows, listed, rows[n - 1].item.name@, listed.len() as int),
                (n - 1) as usize,
            )
        } else {
            listed
        }
    }
}

/// Whether a row is a tool with this name and this source.
pub open spec fn is_listed_tool(row: LoadedItemRow, tool: (String, Option<String>)) -> bool {
    row.item.name@ == tool.0@ && same_opt(row.item.source_turn_id, tool.1)
}

/// Whether `tools` are the tools loaded in a session, by name, each with the
/// turn it came from.
pub open spec fn are_loaded_tools(
    rows: Seq<LoadedItemRow>,
    session: Seq<char>,
    tools: Seq<(String, Option<String>)>,
) -> bool {
    let listed = tools_by_name(rows, session, rows.len() as int);
    &&& tools.len() == listed.len()
    &&& forall|i: int|
        0 <= i < tools.len() ==> is_listed_tool(rows[listed[i] as int], #[trigger] tools[i])
}

/// Whether two texts that may be missing hold the same.
fn same_option(a: &Option<String>, b: &Option<String>) -> (r: bool)
    ensures
        r == same_opt(*a, *b),
{
    match (a, b) {
        (Some(a), Some(b)) => same_text(a.as_str(), b.as_str()),
        (None, None) => true,
        _ => false,
    }
}

impl ConversationDb {
    /// The places of the tools loaded in a session, by name.
    fn list_tools(&self, session_id: &str) -> (listed: Vec<usize>)
        ensures
            listed@ == tools_by_name(
                self.loaded_items@,
                session_id@,
                self.loaded_items@.len() as int,
            ),
            forall|k: int|
                0 <= k < listed@.len() ==> (#[trigger] listed@[k]) < self.loaded_items@.len(),
    {
        let rows = &self.loaded_items;
        let mut listed: Vec<usize> = Vec::new();
        let mut i: usize = 0;
        while i < rows.len()
            invariant
                i <= rows@.len(),
                listed@ == tools_by_name(rows@, session_id@, i as int),
                forall|k: int| 0 <= k < listed@.len() ==> (#[trigger] listed@[k]) < i,
            decreases rows@.len() - i,
        {
            if same_text(rows[i].session_id.as_str(), session_id) && same_text(
                rows[i].item.kind.as_str(),
                LOADED_TOOL,
            ) {
                let mut at: usize = listed.len();
                while at > 0 && comes_before(
                    rows[i].item.name.as_str(),
                    rows[listed[at - 1]].item.name.as_str(),
                )
                    invariant
                        i < rows@.len(),
                        at <= listed@.len(),
                        forall|k: int| 0 <= k < listed@.len() ==> (#[trigger] listed@[k]) < i,
                        tool_place(
                            rows@,
                            listed@,
                            rows@[i as int].item.name@,
                            listed@.len() as int,
                        ) == tool_place(
                            rows@,
                            listed@,
                            rows@[i as int].item.name@,
                            at as int,
                        ),
                    decreases at,
                {
                    at -= 1;
                }
                listed.insert(at, i);
            }
            i += 1;
        }
        listed
    }

    /// Whether the tools loaded in a session are still those that were
    /// expected, where any were.
    pub fn verify_loaded_tool_sources(
        &self,
        session_id: &str,
        expected: Option<&Vec<(String, Option<String>)>>,
    ) -> (done: Result<(), DbError>)
        ensures
            match (expected, done) {
                (None, done) => done is Ok,
                (Some(tools), Ok(())) => are_loaded_tools(
                    self.loaded_items@,
                    session_id@,
                    tools@,
                ),
                (Some(tools), Err(e)) => e == DbError::LoadedToolsChanged && !are_loaded_tools(
                    self.loaded_items@,
                    session_id@,
                    tools@,
                ),
            },
    {
        let tools = match expected {
            Some(tools) => tools,
            None => {
                return Ok(());
            },
        };
        let rows = &self.loaded_items;
        let listed = self.list_tools(session_id);
        if tools.len() != listed.len() {
            return Err(DbError::LoadedToolsChanged);
        }
        let mut i: usize = 0;
        while i < tools.len()
            invariant
                i <= tools@.len(),
                expected == Some(tools),
                *rows == self.loaded_items,
                tools@.len() == listed@.len(),
                listed@ == tools_by_name(rows@, session_id@, rows@.len() as int),
                forall|k: int| 0 <= k < listed@.len() ==> (#[trigger] listed@[k]) < rows@.len(),
                forall|k: int|
                    0 <= k < i ==> is_listed_tool(rows@[listed@[k] as int], #[trigger] tools@[k]),
            decreases tools@.len() - i,
        {
            let row = &rows[listed[i]];
            if !same_text(row.item.name.as_str(), tools[i].0.as_str()) || !same_option(
                &row.item.source_turn_id,
                &tools[i].1,
            ) {
                assert(!is_listed_tool(rows@[listed@[i as int] as int], tools@[i as int]));
                return Err(DbError::LoadedToolsChanged);
            }
            i += 1;
        }
        Ok(())
    }
}

// ---------------------------------------------------------------------------
// Lengths
// ---------------------------------------------------------------------------

/// The texts of a message that came in while a turn was running.
#[derive(Debug)]
pub struct FollowupTexts {
    pub content: String,
    pub preceding_assistant_content: Option<String>,
    pub preceding_assistant_reasoning: Option<String>,
}

/// The texts of a turn.
#[derive(Debug)]
pub struct TurnTexts {
    pub user_content: String,
    pub assistant_content: String,
    pub assistant_reasoning: Option<String>,
    pub tool_reports: Vec<String>,
    /// Questions and their answers as they are written down.
    pub question_exchanges: Vec<String>,
    pub followups: Vec<FollowupTexts>,
}

/// How long a text is that may be missing.
pub open spec fn opt_len(s: Option<String>) -> nat {
    match s {
        Some(s) => s@.len(),
        None => 0,
    }
}

/// How long texts are together.
pub open spec fn texts_len(texts: Seq<String>) -> nat
    decreases texts.len(),
{
    if texts.len() == 0 {
        0
    } else {
        texts_len(texts.drop_last()) + texts.last()@.len()
    }
}

/// How long a message is with what precedes it.
pub open spec fn followup_len(followup: FollowupTexts) -> nat {
    followup.content@.len() + opt_len(followup.preceding_assistant_content) + opt_len(
        followup.preceding_assistant_reasoning,
    )
}

/// How long messages are together.
pub open spec fn followups_len(followups: Seq<FollowupTexts>) -> nat
    decreases followups.len(),
{
    if followups.len() == 0 {
        0
    } else {
        followups_len(followups.drop_last()) + followup_len(followups.last())
    }
}

/// How many characters a turn has.
pub open spec fn turn_len(turn: TurnTexts) -> nat {
    turn.user_content@.len() + turn.assistant_content@.len() + opt_len(turn.assistant_reasoning)
        + texts_len(turn.tool_reports@) + texts_len(turn.question_exchanges@) + followups_len(
        turn.followups@,
    )
}

/// How long a text is that may be missing.
fn opt_chars(s: &Option<String>) -> (n: usize)
    ensures
        n == opt_len(*s),
{
    match s {
        Some(s) => s.as_str().unicode_len(),
        None => 0,
    }
}

proof fn lemma_texts_len(texts: Seq<String>, n: int)
    requires
        0 <= n <= texts.len(),
    ensures
        texts_len(texts.take(n)) <= texts_len(texts),
    decreases texts.len(),
{
    if n == texts.len() {
        assert(texts.take(n) =~= texts);
    } else {
        lemma_texts_len(texts.drop_last(), n);
        assert(texts.drop_last().take(n) =~= texts.take(n));
    }
}

proof fn lemma_followups_len(followups: Seq<FollowupTexts>, n: int)
    requires
        0 <= n <= followups.len(),
    ensures
        followups_len(followups.take(n)) <= followups_len(followups),
    decreases followups.len(),
{
    if n == followups.len() {
        assert(followups.take(n) =~= followups);
    } else {
        lemma_followups_len(followups.drop_last(), n);
        assert(followups.drop_last().take(n) =~= followups.take(n));
    }
}

/// How long texts are together.
fn chars_in(texts: &Vec<String>) -> (n: usize)
    requires
        texts_len(texts@) <= usize::MAX,
    ensures
        n == texts_len(texts@),
{
    let mut n: usize = 0;
    let mut i: usize = 0;
    proof {
        assert(texts@.take(0) =~= Seq::empty());
    }
    while i < texts.len()
        invariant
            i <= texts@.len(),
            texts_len(texts@) <= usize::MAX,
            n == texts_len(texts@.take(i as int)),
        decreases texts@.len() - i,
    {
        proof {
            assert(texts@.take(i + 1).drop_last() =~= texts@.take(i as int));
            assert(texts@.take(i + 1).last() == texts@[i as int]);
            lemma_texts_len(texts@, i + 1);
        }
        n += texts[i].as_str().unicode_len();
        i += 1;
    }
    assert(texts@.take(texts@.len() as int) =~= texts@);
    n
}

/// How long messages are together.
fn chars_in_followups(followups: &Vec<FollowupTexts>) -> (n: usize)
    requires
        followups_len(followups@) <= usize::MAX,
    ensures
        n == followups_len(followups@),
{
    let mut n: usize = 0;
    let mut i: usize = 0;
    proof {
        assert(followups@.take(0) =~= Seq::empty());
    }
    while i < followups.len()
        invariant
            i <= followups@.len(),
            followups_len(followups@) <= usize::MAX,
            n == followups_len(followups@.take(i as int)),
        decreases followups@.len() - i,
    {
        let followup = &followups[i];
        proof {
            assert(followups@.take(i + 1).drop_last() =~= followups@.take(i as int));
            assert(followups@.take(i + 1).last() == followups@[i as int]);
            lemma_followups_len(followups@, i + 1);
        }
        n += followup.content.as_str().unicode_len();
        n += opt_chars(&followup.preceding_assistant_content);
        n += opt_chars(&followup.preceding_assistant_reasoning);
        i += 1;
    }
    assert(followups@.take(followups@.len() as int) =~= followups@);
    n
}

/// How many characters a turn has.
pub fn turn_chars(turn: &TurnTexts) -> (n: usize)
    requires
        turn_len(*turn) <= usize::MAX,
    ensures
        n == turn_len(*turn),
{
    turn.user_content.as_str().unicode_len() + turn.assistant_content.as_str().unicode_len()
        + opt_chars(&turn.assistant_reasoning) + chars_in(&turn.tool_reports) + chars_in(
        &turn.question_exchanges,
    ) + chars_in_followups(&turn.followups)
}

// ---------------------------------------------------------------------------
// Checkpoints
// ---------------------------------------------------------------------------

/// Where a turn can be redone from, or why it cannot.
#[derive(Debug)]
pub struct TurnRedoCheckpoint {
    pub batch_prompt_ids: Vec<String>,
    pub payload: Option<Vec<u8>>,
    pub unavailable_reason: Option<String>,
}

/// The ids that a JSON list of texts holds. Anything else holds none.
pub open spec fn id_list(raw: Seq<char>) -> Seq<Seq<char>> {
    match json::text_list(raw) {
        Some(ids) => ids,
        None => Seq::empty(),
    }
}

/// The ids that a JSON list of texts holds.
fn read_ids(raw: &str) -> (ids: Vec<String>)
    ensures
        json::texts(ids@) == id_list(raw@),
{
    match read_text_list(raw) {
        Some(ids) => ids,
        None => {
            let none: Vec<String> = Vec::new();
            assert(json::texts(none@) =~= Seq::empty());
            none
        },
    }
}

/// Whether `loaded` is where a turn can be redone from. A checkpoint of
/// another version than `supported` cannot be used.
pub open spec fn is_checkpoint(saved: Checkpoint, supported: i64, loaded: TurnRedoCheckpoint) -> bool {
    &&& json::texts(loaded.batch_prompt_ids@) == id_list(saved.batch_prompt_ids@)
    &&& if saved.version == supported {
        loaded.unavailable_reason == saved.unavailable_reason && match (
            loaded.payload,
            saved.payload,
        ) {
            (Some(a), Some(b)) => a@ == b@,
            (None, None) => true,
            _ => false,
        }
    } else {
        loaded.payload is None && match loaded.unavailable_reason {
            Some(reason) => reason@ == "unsupported redo checkpoint version: "@ + text::signed_decimal(
                saved.version,
            ),
            None => false,
        }
    }
}

/// A copy of some bytes.
fn copy_bytes(bytes: &Vec<u8>) -> (r: Vec<u8>)
    ensures
        r@ == bytes@,
{
    let mut out: Vec<u8> = Vec::new();
    let mut i: usize = 0;
    while i < bytes.len()
        invariant
            i <= bytes@.len(),
            out@ =~= bytes@.take(i as int),
        decreases bytes@.len() - i,
    {
        out.push(bytes[i]);
        i += 1;
    }
    out
}

/// Where the checkpoint of a turn stands, and -1 where there is none, from row
/// `from` on.
pub open spec fn checkpoint_at(rows: Seq<CheckpointRow>, turn_id: Seq<char>, from: int) -> int
    decreases rows.len() - from,
{
    if from >= rows.len() {
        -1
    } else if rows[from].turn_id@ == turn_id {
        from
    } else {
        checkpoint_at(rows, turn_id, from + 1)
    }
}

impl ConversationDb {
    /// Where a turn can be redone from. `supported` is the version of
    /// checkpoints that can be used.
    pub fn load_redo_checkpoint(&self, turn_id: &str, supported: i64) -> (loaded: Option<
        TurnRedoCheckpoint,
    >)
        ensures
            ({
                let at = checkpoint_at(self.checkpoints@, turn_id@, 0);
                match loaded {
                    Some(loaded) => at >= 0 && is_checkpoint(
                        self.checkpoints@[at].checkpoint,
                        supported,
                        loaded,
                    ),
                    None => at == -1,
                }
            }),
    {
        let rows = &self.checkpoints;
        let mut i: usize = 0;
        while i < rows.len()
            invariant
                i <= rows@.len(),
                *rows == self.checkpoints,
                checkpoint_at(rows@, turn_id@, 0) == checkpoint_at(rows@, turn_id@, i as int),
            decreases rows@.len() - i,
        {
            if same_text(rows[i].turn_id.as_str(), turn_id) {
                let saved = &rows[i].checkpoint;
                let batch_prompt_ids = read_ids(saved.batch_prompt_ids.as_str());
                if saved.version == supported {
                    let payload = match &saved.payload {
                        Some(bytes) => Some(copy_bytes(bytes)),
                        None => None,
                    };
                    return Some(
                        TurnRedoCheckpoint {
                            batch_prompt_ids,
                            payload,
                            unavailable_reason: copy_opt(&saved.unavailable_reason),
                        },
                    );
                }
                let mut reason = "unsupported redo checkpoint version: ".to_owned();
                push_signed(&mut reason, saved.version);
                return Some(
                    TurnRedoCheckpoint {
                        batch_prompt_ids,
                        payload: None,
                        unavailable_reason: Some(reason),
                    },
                );
            }
            i += 1;
        }
        None
    }
}

// ---------------------------------------------------------------------------
// Laws
// ---------------------------------------------------------------------------

/// Whether rows stand by name, and those of one name in their own order.
pub open spec fn stand_by_name(rows: Seq<LoadedItemRow>, listed: Seq<usize>) -> bool {
    forall|i: int, j: int|
        0 <= i < j < listed.len() ==> {
            let a = rows[(#[trigger] listed[i]) as int].item.name@;
            let b = rows[(#[trigger] listed[j]) as int].item.name@;
            text::precedes(a, b) || (a == b && listed[i] < listed[j])
        }
}

/// The tools of a session are listed by name, each of them and nothing else.
pub proof fn tools_are_listed_by_name(rows: Seq<LoadedItemRow>, session: Seq<char>, n: int)
    requires
        0 <= n <= rows.len() <= usize::MAX,
    ensures
        stand_by_name(rows, tools_by_name(rows, session, n)),
        forall|k: int|
            0 <= k < tools_by_name(rows, session, n).len() ==> {
                let at = (#[trigger] tools_by_name(rows, session, n)[k]) as int;
                at < n && is_tool(rows[at], session)
            },
        forall|at: int|
            0 <= at < n && is_tool(#[trigger] rows[at], session) ==> tools_by_name(
                rows,
                session,
                n,
            ).contains(at as usize),
    decreases n,
{
    if n > 0 {
        tools_are_listed_by_name(rows, session, n - 1);
        let before = tools_by_name(rows, session, n - 1);
        let after = tools_by_name(rows, session, n);
        let last = (n - 1) as usize;
        if is_tool(rows[n - 1], session) {
            let name = rows[n - 1].item.name@;
            let p = tool_place(rows, before, name, before.len() as int);
            lemma_tool_place(rows, before, name, before.len() as int);
            assert(after == before.insert(p, last));
            assert forall|k: int| 0 <= k < p implies {
                let other = rows[(#[trigger] before[k]) as int].item.name@;
                text::precedes(other, name) || other == name
            } by {
                let other = rows[before[k] as int].item.name@;
                let near = rows[before[p - 1] as int].item.name@;
                text::lemma_precedes_total(near, name);
                if k < p - 1 {
                    assert(text::precedes(other, near) || other == near) by {
                        assert(before[k] != before[p - 1] || before[k] == before[p - 1]);
                    }
                    if text::precedes(other, near) && text::precedes(near, name) {
                        text::lemma_precedes_transitive(other, near, name);
                    }
                }
            }
            assert forall|i: int, j: int| 0 <= i < j < after.len() implies {
                let a = rows[(#[trigger] after[i]) as int].item.name@;
                let b = rows[(#[trigger] after[j]) as int].item.name@;
                text::precedes(a, b) || (a == b && after[i] < after[j])
            } by {
                if i < p {
                    assert(after[i] == before[i]);
                    if j < p {
                        assert(after[j] == before[j]);
                    } else if j > p {
                        assert(after[j] == before[j - 1]);
                    }
                } else {
                    assert(after[j] == before[j - 1]);
                    if i > p {
                        assert(after[i] == before[i - 1]);
                    }
                }
            }
            assert forall|k: int| 0 <= k < after.len() implies {
                let at = (#[trigger] after[k]) as int;
                at < n && is_tool(rows[at], session)
            } by {
                if k < p {
                    assert(after[k] == before[k]);
                } else if k > p {
                    assert(after[k] == before[k - 1]);
                }
            }
            assert forall|at: int|
                0 <= at < n && is_tool(#[trigger] rows[at], session) implies after.contains(
                at as usize,
            ) by {
                if at == n - 1 {
                    assert(after[p] == last);
                } else {
                    let k = choose|k: int|
                        0 <= k < before.len() && before[k] == at as usize;
                    if k < p {
                        assert(after[k] == before[k]);
                    } else {
                        assert(after[k + 1] == before[k]);
                    }
                }
            }
        }
    }
}

proof fn lemma_tool_place(rows: Seq<LoadedItemRow>, listed: Seq<usize>, name: Seq<char>, n: int)
    requires
        0 <= n <= listed.len(),
    ensures
        ({
            let p = tool_place(rows, listed, name, n);
            &&& 0 <= p <= n
            &&& p > 0 ==> !text::precedes(name, rows[listed[p - 1] as int].item.name@)
            &&& forall|k: int|
                p <= k < n ==> text::precedes(name, rows[(#[trigger] listed[k]) as int].item.name@)
        }),
    decreases n,
{
    if n > 0 && text::precedes(name, rows[listed[n - 1] as int].item.name@) {
        lemma_tool_place(rows, listed, name, n - 1);
    }
}

/// The tools that are expected are found unchanged exactly where they are those
/// that are loaded in the session, each with its source, by name. Nothing
/// expected is always found unchanged.
pub proof fn changed_tools_are_found(
    db: &ConversationDb,
    session: &str,
    tools: &Vec<(String, Option<String>)>,
    done: Result<(), DbError>,
    none: Result<(), DbError>,
    at: int,
    k: int,
)
    requires
        db.loaded_items@.len() <= usize::MAX,
        call_ensures(ConversationDb::verify_loaded_tool_sources, (db, session, Some(tools)), done),
        call_ensures(ConversationDb::verify_loaded_tool_sources, (db, session, None), none),
    ensures
        none is Ok,
        done is Ok && 0 <= at < db.loaded_items@.len() && db.loaded_items@[at].session_id@
            == session@ && db.loaded_items@[at].item.kind@ == "tool"@ ==> exists|m: int|
            0 <= m < tools@.len() && (#[trigger] tools@[m]).0@ == db.loaded_items@[at].item.name@
                && same_opt(db.loaded_items@[at].item.source_turn_id, tools@[m].1),
        done is Ok && 0 <= k < tools@.len() ==> exists|m: int|
            0 <= m < db.loaded_items@.len() && (#[trigger] db.loaded_items@[m]).session_id@
                == session@ && db.loaded_items@[m].item.kind@ == "tool"@
                && db.loaded_items@[m].item.name@ == tools@[k].0@,
        done is Ok && 0 < k < tools@.len() ==> !text::precedes(tools@[k].0@, tools@[k - 1].0@),
{
    let rows = db.loaded_items@;
    let n = rows.len() as int;
    tools_are_listed_by_name(rows, session@, n);
    let listed = tools_by_name(rows, session@, n);
    if done is Ok {
        if 0 <= at < n && is_tool(rows[at], session@) {
            let m = choose|m: int| 0 <= m < listed.len() && listed[m] == at as usize;
            assert(is_listed_tool(rows[listed[m] as int], tools@[m]));
        }
        if 0 <= k < tools@.len() {
            assert(is_listed_tool(rows[listed[k] as int], tools@[k]));
            assert(is_tool(rows[listed[k] as int], session@));
            if k > 0 {
                assert(is_listed_tool(rows[listed[k - 1] as int], tools@[k - 1]));
                text::lemma_precedes_total(tools@[k - 1].0@, tools@[k].0@);
            }
        }
    }
}

/// A turn is as long as what was said in it, and each report, each question and
/// each message more adds its own length.
pub proof fn each_part_of_a_turn_counts(
    turn: &TurnTexts,
    more: &TurnTexts,
    n: usize,
    m: usize,
    report: String,
    question: String,
    followup: FollowupTexts,
)
    requires
        call_ensures(turn_chars, (turn,), n),
        call_ensures(turn_chars, (more,), m),
        more.user_content == turn.user_content && more.assistant_content == turn.assistant_content
            && more.assistant_reasoning == turn.assistant_reasoning,
    ensures
        turn.tool_reports@.len() == 0 && turn.question_exchanges@.len() == 0
            && turn.followups@.len() == 0 ==> n == turn.user_content@.len()
            + turn.assistant_content@.len() + match turn.assistant_reasoning {
            Some(reasoning) => reasoning@.len(),
            None => 0,
        },
        more.tool_reports@ == turn.tool_reports@.push(report) && more.question_exchanges@
            == turn.question_exchanges@ && more.followups@ == turn.followups@ ==> m == n
            + report@.len(),
        more.tool_reports@ == turn.tool_reports@ && more.question_exchanges@
            == turn.question_exchanges@.push(question) && more.followups@ == turn.followups@ ==> m
            == n + question@.len(),
        more.tool_reports@ == turn.tool_reports@ && more.question_exchanges@
            == turn.question_exchanges@ && more.followups@ == turn.followups@.push(followup) ==> m
            == n + followup.content@.len() + (match followup.preceding_assistant_content {
            Some(said) => said@.len(),
            None => 0,
        }) + (match followup.preceding_assistant_reasoning {
            Some(thought) => thought@.len(),
            None => 0,
        }),
{
    assert(turn.tool_reports@.push(report).drop_last() =~= turn.tool_reports@);
    assert(turn.question_exchanges@.push(question).drop_last() =~= turn.question_exchanges@);
    assert(turn.followups@.push(followup).drop_last() =~= turn.followups@);
}

/// Where a turn can be redone from is what its first checkpoint says. One of
/// another version cannot be used, and it is said so.
pub proof fn checkpoints_of_other_versions_are_of_no_use(
    db: &ConversationDb,
    turn_id: &str,
    supported: i64,
    loaded: Option<TurnRedoCheckpoint>,
    i: int,
)
    requires
        call_ensures(ConversationDb::load_redo_checkpoint, (db, turn_id, supported), loaded),
    ensures
        (forall|k: int|
            0 <= k < db.checkpoints@.len() ==> (#[trigger] db.checkpoints@[k]).turn_id@ != turn_id@)
            ==> loaded is None,
        0 <= i < db.checkpoints@.len() && db.checkpoints@[i].turn_id@ == turn_id@ && (forall|
            k: int,
        |
            0 <= k < i ==> (#[trigger] db.checkpoints@[k]).turn_id@ != turn_id@) ==> {
            let saved = db.checkpoints@[i].checkpoint;
            &&& loaded is Some
            &&& saved.version == supported ==> loaded->0.unavailable_reason
                == saved.unavailable_reason && (loaded->0.payload is Some
                <==> saved.payload is Some) && (loaded->0.payload matches Some(payload)
                ==> saved.payload matches Some(kept) ==> payload@ == kept@)
            &&& saved.version != supported ==> loaded->0.payload is None
                && loaded->0.unavailable_reason is Some
        },
{
    lemma_checkpoint_is(db.checkpoints@, turn_id@, 0, i);
}

proof fn lemma_checkpoint_is(rows: Seq<CheckpointRow>, turn_id: Seq<char>, from: int, i: int)
    requires
        0 <= from,
    ensures
        (forall|k: int| from <= k < rows.len() ==> (#[trigger] rows[k]).turn_id@ != turn_id)
            ==> checkpoint_at(rows, turn_id, from) == -1,
        from <= i < rows.len() && rows[i].turn_id@ == turn_id && (forall|k: int|
            from <= k < i ==> (#[trigger] rows[k]).turn_id@ != turn_id) ==> checkpoint_at(
            rows,
            turn_id,
            from,
        ) == i,
    decreases rows.len() - from,
{
    if from < rows.len() {
        lemma_checkpoint_is(rows, turn_id, from + 1, i);
        let here = rows[from];
    }
}

} // verus!
