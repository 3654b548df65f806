//! Small things that are kept for a session: its to-do list, the fingerprint
//! of its prompt, its thinking levels, and the lines typed at its terminal.
//!
//! They were once files. What a file held is taken over once, before the first
//! use, so that what was there comes before what is added.

use vstd::prelude::*;

use crate::text::same_text;

use super::rows::{DbError, Stamp};
use crate::table::{self, delete_where};
use super::turns::{self, session_exists};
use super::ConversationDb;

verus! {

/// What is kept once for a session, as a text.
#[derive(Clone, Copy, Debug, PartialEq, Eq, Structural)]
pub enum SessionValueKind {
    Todos,
    PromptFingerprint,
    ThinkingPins,
}

impl SessionValueKind {
    /// The name of the kind in the tables.
    pub open spec fn name(self) -> &'static str {
        match self {
            SessionValueKind::Todos => "todos",
            SessionValueKind::PromptFingerprint => "prompt_fingerprint",
            SessionValueKind::ThinkingPins => "thinking_pins",
        }
    }

    /// The name of the kind in the tables.
    pub fn as_str(self) -> (name: &'static str)
        ensures
            name == self.name(),
    {
        match self {
            SessionValueKind::Todos => "todos",
            SessionValueKind::PromptFingerprint => "prompt_fingerprint",
            SessionValueKind::ThinkingPins => "thinking_pins",
        }
    }
}

/// What an old file held.
#[derive(Clone, Copy, Debug, PartialEq, Eq, Structural)]
pub enum LegacyKind {
    Value(SessionValueKind),
    ReplHistory,
}

impl LegacyKind {
    /// The name of the kind in the tables.
    pub open spec fn name(self) -> &'static str {
        match self {
            LegacyKind::Value(kind) => kind.name(),
            LegacyKind::ReplHistory => "repl_history",
        }
    }

    /// The name of the kind in the tables.
    pub fn as_str(self) -> (name: &'static str)
        ensures
            name == self.name(),
    {
        match self {
            LegacyKind::Value(kind) => kind.as_str(),
            LegacyKind::ReplHistory => "repl_history",
        }
    }
}

/// What is taken over from an old file.
#[derive(Debug)]
pub enum LegacyContent {
    Value(String),
    /// Lines, oldest first.
    Lines(Vec<String>),
}

#[derive(Debug)]
pub struct ValueRow {
    pub session_id: String,
    pub kind: SessionValueKind,
    pub value: String,
    pub updated_at: String,
}

/// That an old file was taken over.
#[derive(Debug)]
pub struct ImportRow {
    pub session_id: String,
    pub kind: LegacyKind,
    pub imported_at: String,
}

/// A line typed at a terminal.
#[derive(Debug)]
pub struct HistoryRow {
    pub session_id: String,
    pub entry: String,
    pub created_at: String,
}

/// The small things that are kept for sessions.
#[derive(Debug)]
pub struct SessionTables {
    pub values: Vec<ValueRow>,
    pub imports: Vec<ImportRow>,
    /// Oldest first.
    pub history: Vec<HistoryRow>,
}

impl SessionTables {
    pub fn new() -> (tables: Self)
        ensures
            tables.values@.len() == 0,
            tables.imports@.len() == 0,
            tables.history@.len() == 0,
    {
        SessionTables { values: Vec::new(), imports: Vec::new(), history: Vec::new() }
    }
}

/// Whether a row holds the value of a kind for a session.
pub open spec fn is_value(row: ValueRow, session: Seq<char>, kind: SessionValueKind) -> bool {
    row.session_id@ == session && row.kind == kind
}

/// Where the value of a kind for a session stands, and -1 where there is none,
/// from row `from` on.
pub open spec fn value_at(
    values: Seq<ValueRow>,
    session: Seq<char>,
    kind: SessionValueKind,
    from: int,
) -> int
    decreases values.len() - from,
{
    if from >= values.len() {
        -1
    } else if is_value(values[from], session, kind) {
        from
    } else {
        value_at(values, session, kind, from + 1)
    }
}

/// The value of a kind for a session.
pub open spec fn value_of(values: Seq<ValueRow>, session: Seq<char>, kind: SessionValueKind) -> Option<
    String,
> {
    let at = value_at(values, session, kind, 0);
    if at >= 0 {
        Some(values[at].value)
    } else {
        None
    }
}

/// The values with that of a kind for a session set.
pub open spec fn with_value(
    values: Seq<ValueRow>,
    session: String,
    kind: SessionValueKind,
    value: String,
    now: String,
) -> Seq<ValueRow> {
    let at = value_at(values, session@, kind, 0);
    if at >= 0 {
        values.update(at, ValueRow { value, updated_at: now, ..values[at] })
    } else {
        values.push(ValueRow { session_id: session, kind, value, updated_at: now })
    }
}

/// Where the value of a kind for a session stands.
fn find_value(values: &Vec<ValueRow>, session: &str, kind: SessionValueKind) -> (at: Option<usize>)
    ensures
        match at {
            Some(i) => i < values.len() && value_at(values@, session@, kind, 0) == i,
            None => value_at(values@, session@, kind, 0) == -1,
        },
{
    let mut i: usize = 0;
    while i < values.len()
        invariant
            i <= values@.len(),
            value_at(values@, session@, kind, 0) == value_at(values@, session@, kind, i as int),
        decreases values@.len() - i,
    {
        if values[i].kind == kind && same_text(values[i].session_id.as_str(), session) {
            return Some(i);
        }
        i += 1;
    }
    None
}

/// Sets the value of a kind for a session.
fn put_value(
    values: &mut Vec<ValueRow>,
    session: &String,
    kind: SessionValueKind,
    value: String,
    now: &String,
)
    ensures
        final(values)@ == with_value(old(values)@, *session, kind, value, *now),
{
    let ghost before = values@;
    match find_value(values, session.as_str(), kind) {
        Some(at) => {
            let row = &mut values[at];
            row.value = value;
            row.updated_at = now.clone();
            assert(values@ =~= before.update(at as int, values@[at as int]));
        },
        None => {
            values.push(
                ValueRow { session_id: session.clone(), kind, value, updated_at: now.clone() },
            );
        },
    }
}

/// Whether an old file was taken over.
pub open spec fn is_imported(imports: Seq<ImportRow>, session: Seq<char>, kind: LegacyKind) -> bool {
    exists|i: int|
        0 <= i < imports.len() && (#[trigger] imports[i]).session_id@ == session && imports[i].kind
            == kind
}

/// Whether an old file was taken over.
pub fn legacy_imported(imports: &Vec<ImportRow>, session: &str, kind: LegacyKind) -> (r: bool)
    ensures
        r == is_imported(imports@, session@, kind),
{
    let mut i: usize = 0;
    while i < imports.len()
        invariant
            i <= imports@.len(),
            forall|k: int|
                0 <= k < i ==> !((#[trigger] imports@[k]).session_id@ == session@
                    && imports@[k].kind == kind),
        decreases imports@.len() - i,
    {
        if imports[i].kind == kind && same_text(imports[i].session_id.as_str(), session) {
            return true;
        }
        i += 1;
    }
    false
}

/// What was taken over, with an old file more.
pub open spec fn with_import(
    imports: Seq<ImportRow>,
    session: String,
    kind: LegacyKind,
    now: String,
) -> Seq<ImportRow> {
    if is_imported(imports, session@, kind) {
        imports
    } else {
        imports.push(ImportRow { session_id: session, kind, imported_at: now })
    }
}

/// Writes down that an old file was taken over.
fn mark_imported(imports: &mut Vec<ImportRow>, session: &String, kind: LegacyKind, now: &String)
    ensures
        final(imports)@ == with_import(old(imports)@, *session, kind, *now),
{
    if !legacy_imported(imports, session.as_str(), kind) {
        imports.push(ImportRow { session_id: session.clone(), kind, imported_at: now.clone() });
    }
}

/// The rows that lines typed at the terminal of a session are.
pub open spec fn history_rows(session: String, lines: Seq<String>, now: String) -> Seq<HistoryRow> {
    lines.map_values(|entry: String| HistoryRow { session_id: session, entry, created_at: now })
}

/// The rows without the first `k` of a session.
pub open spec fn without_first(rows: Seq<HistoryRow>, session: Seq<char>, k: int) -> Seq<HistoryRow>
    decreases rows.len(),
{
    if rows.len() == 0 || k <= 0 {
        rows
    } else if rows[0].session_id@ == session {
        without_first(rows.skip(1), session, k - 1)
    } else {
        seq![rows[0]] + without_first(rows.skip(1), session, k)
    }
}

/// The lines typed at the terminal of a session, oldest first.
pub open spec fn history_of(rows: Seq<HistoryRow>, session: Seq<char>) -> Seq<String> {
    rows.filter(|row: HistoryRow| row.session_id@ == session).map_values(
        |row: HistoryRow| row.entry,
    )
}

/// The rows with all but the last `keep` of a session deleted.
pub open spec fn newest(rows: Seq<HistoryRow>, session: Seq<char>, keep: int) -> Seq<HistoryRow> {
    without_first(rows, session, history_of(rows, session).len() - keep)
}

/// The tables after an old file was taken over, where that is still to be
/// done and the session is there.
pub open spec fn imported(
    before: SessionTables,
    session: String,
    kind: LegacyKind,
    content: Option<LegacyContent>,
    now: String,
    after: SessionTables,
) -> bool {
    &&& after.values@ == (match (kind, content) {
        (LegacyKind::Value(value_kind), Some(LegacyContent::Value(value))) => if value_at(
            before.values@,
            session@,
            value_kind,
            0,
        ) >= 0 {
            before.values@
        } else {
            with_value(before.values@, session, value_kind, value, now)
        },
        _ => before.values@,
    })
    &&& after.history@ == (match (kind, content) {
        (LegacyKind::ReplHistory, Some(LegacyContent::Lines(lines))) => before.history@
            + history_rows(session, lines@, now),
        _ => before.history@,
    })
    &&& after.imports@ == with_import(before.imports@, session, kind, now)
}

impl SessionTables {
    /// Takes over what an old file held.
    fn import(
        &mut self,
        session: &String,
        kind: LegacyKind,
        content: Option<LegacyContent>,
        now: &String,
    )
        ensures
            imported(*old(self), *session, kind, content, *now, *final(self)),
    {
        match (kind, content) {
            (LegacyKind::Value(value_kind), Some(LegacyContent::Value(value))) => {
                if find_value(&self.values, session.as_str(), value_kind).is_none() {
                    put_value(&mut self.values, session, value_kind, value, now);
                }
            },
            (LegacyKind::ReplHistory, Some(LegacyContent::Lines(lines))) => {
                let ghost before = self.history@;
                let ghost row = |entry: String|
                    HistoryRow { session_id: *session, entry, created_at: *now };
                let mut i: usize = 0;
                while i < lines.len()
                    invariant
                        i <= lines@.len(),
                        row == (|entry: String|
                            HistoryRow { session_id: *session, entry, created_at: *now }),
                        self.history@ =~= before + lines@.take(i as int).map_values(row),
                        self.values == old(self).values,
                        self.imports == old(self).imports,
                    decreases lines@.len() - i,
                {
                    self.history.push(
                        HistoryRow {
                            session_id: session.clone(),
                            entry: lines[i].clone(),
                            created_at: now.clone(),
                        },
                    );
                    i += 1;
                }
                assert(lines@.take(lines@.len() as int) =~= lines@);
            },
            _ => {},
        }
        mark_imported(&mut self.imports, session, kind, now);
    }

    /// The value of a kind for a session.
    pub fn session_value(&self, session_id: &str, kind: SessionValueKind) -> (value: Option<String>)
        ensures
            value == value_of(self.values@, session_id@, kind),
    {
        match find_value(&self.values, session_id, kind) {
            Some(at) => Some(self.values[at].value.clone()),
            None => None,
        }
    }

    /// The lines typed at the terminal of a session, oldest first.
    pub fn repl_history(&self, session_id: &str) -> (entries: Vec<String>)
        ensures
            entries@ == history_of(self.history@, session_id@),
    {
        let rows = &self.history;
        let ghost own = |row: HistoryRow| row.session_id@ == session_id@;
        let ghost entry = |row: HistoryRow| row.entry;
        let mut out: Vec<String> = Vec::new();
        let mut i: usize = 0;
        proof {
            reveal(Seq::filter);
            assert(rows@.take(0).filter(own) =~= Seq::empty());
        }
        while i < rows.len()
            invariant
                i <= rows@.len(),
                own == (|row: HistoryRow| row.session_id@ == session_id@),
                entry == (|row: HistoryRow| row.entry),
                out@ =~= rows@.take(i as int).filter(own).map_values(entry),
            decreases rows@.len() - i,
        {
            proof {
                table::lemma_filter_step(rows@, own, i as int);
            }
            if same_text(rows[i].session_id.as_str(), session_id) {
                out.push(rows[i].entry.clone());
            }
            i += 1;
        }
        assert(rows@.take(rows@.len() as int) =~= rows@);
        out
    }

    /// Deletes all but the last `keep` lines of a session.
    fn keep_newest(&mut self, session_id: &str, keep: usize)
        ensures
            final(self).history@ == newest(old(self).history@, session_id@, keep as int),
            *final(self) == (SessionTables { history: final(self).history, ..*old(self) }),
    {
        let count: usize = self.repl_history(session_id).len();
        let mut left: usize = if count > keep {
            count - keep
        } else {
            0
        };
        let ghost before = self.history@;
        let mut i: usize = 0;
        proof {
            assert(before.skip(0) =~= before);
            if count <= keep {
                assert(newest(before, session_id@, keep as int) == before);
            }
        }
        while i < self.history.len() && left > 0
            invariant
                i <= self.history@.len(),
                *self == (SessionTables { history: self.history, ..*old(self) }),
                newest(before, session_id@, keep as int) == self.history@.take(i as int)
                    + without_first(self.history@.skip(i as int), session_id@, left as int),
            decreases self.history@.len() - i,
        {
            let ghost rest = self.history@.skip(i as int);
            let ghost head = self.history@.take(i as int);
            let ghost here = self.history@;
            assert(rest[0] == here[i as int]);
            if same_text(self.history[i].session_id.as_str(), session_id) {
                self.history.remove(i);
                left -= 1;
                proof {
                    assert(self.history@.skip(i as int) =~= rest.skip(1));
                    assert(self.history@.take(i as int) =~= head);
                }
            } else {
                i += 1;
                proof {
                    assert(here.skip(i as int) =~= rest.skip(1));
                    assert(here.take(i as int) =~= head + seq![rest[0]]);
                    let tail = without_first(rest.skip(1), session_id@, left as int);
                    assert(head + (seq![rest[0]] + tail) =~= (head + seq![rest[0]]) + tail);
                }
            }
        }
        proof {
            let rest = self.history@.skip(i as int);
            assert(without_first(rest, session_id@, left as int) == rest);
            assert(self.history@.take(i as int) + rest =~= self.history@);
        }
    }
}

/// Whether an old file is still to be taken over: it was not before, and the
/// session is there.
pub open spec fn import_due(db: ConversationDb, session: Seq<char>, kind: LegacyKind) -> bool {
    !is_imported(db.state.imports@, session, kind) && turns::has_session(db.sessions@, session)
}

/// The tables after an old file was taken over, where it is due.
pub open spec fn imported_once(
    before: ConversationDb,
    session: String,
    kind: LegacyKind,
    content: Option<LegacyContent>,
    now: String,
    after: ConversationDb,
) -> bool {
    if import_due(before, session@, kind) {
        imported(before.state, session, kind, content, now, after.state) && after
            == (ConversationDb { state: after.state, ..before })
    } else {
        after == before
    }
}

/// What setting a value comes to.
pub open spec fn is_set(
    before: ConversationDb,
    after: ConversationDb,
    session: String,
    kind: SessionValueKind,
    value: String,
    now: String,
    done: Result<(), DbError>,
) -> bool {
    let known = turns::has_session(before.sessions@, session@);
    match done {
        Ok(()) => {
            &&& known
            &&& after.state.values@ == with_value(before.state.values@, session, kind, value, now)
            &&& after == (ConversationDb {
                state: SessionTables { values: after.state.values, ..before.state },
                ..before
            })
        },
        Err(e) => e == DbError::UnknownSession && !known && after == before,
    }
}

/// What clearing a value comes to.
pub open spec fn is_cleared(
    before: ConversationDb,
    after: ConversationDb,
    session: String,
    kind: SessionValueKind,
    now: String,
) -> bool {
    &&& after.state.values@ == table::without(
        before.state.values@,
        |row: ValueRow| is_value(row, session@, kind),
    )
    &&& after.state.imports@ == (if turns::has_session(before.sessions@, session@) {
        with_import(before.state.imports@, session, LegacyKind::Value(kind), now)
    } else {
        before.state.imports@
    })
    &&& after == (ConversationDb {
        state: SessionTables {
            values: after.state.values,
            imports: after.state.imports,
            ..before.state
        },
        ..before
    })
}

/// What typing a line comes to.
pub open spec fn is_typed(
    before: ConversationDb,
    after: ConversationDb,
    session: String,
    entry: String,
    keep: int,
    now: String,
    done: Result<(), DbError>,
) -> bool {
    let known = turns::has_session(before.sessions@, session@);
    match done {
        Ok(()) => {
            &&& known
            &&& after.state.history@ == newest(
                before.state.history@.push(
                    HistoryRow { session_id: session, entry, created_at: now },
                ),
                session@,
                keep,
            )
            &&& after == (ConversationDb {
                state: SessionTables { history: after.state.history, ..before.state },
                ..before
            })
        },
        Err(e) => e == DbError::UnknownSession && !known && after == before,
    }
}

impl ConversationDb {
    /// Whether an old file is still to be taken over.
    pub fn needs_legacy(&self, session_id: &str, kind: LegacyKind) -> (r: bool)
        ensures
            r == import_due(*self, session_id@, kind),
    {
        !legacy_imported(&self.state.imports, session_id, kind) && session_exists(
            &self.sessions,
            session_id,
        )
    }

    /// Takes over what an old file held, once and before the first use. Where
    /// the session is not there nothing is done.
    pub fn import_legacy_once(
        &mut self,
        session_id: &String,
        kind: LegacyKind,
        content: Option<LegacyContent>,
        now: &Stamp,
    )
        requires
            old(self).wf(),
        ensures
            final(self).wf(),
            imported_once(*old(self), *session_id, kind, content, now.text, *final(self)),
    {
        if !self.needs_legacy(session_id.as_str(), kind) {
            return ;
        }
        self.state.import(session_id, kind, content, &now.text);
    }

    /// The value of a kind for a session.
    pub fn session_value(&self, session_id: &str, kind: SessionValueKind) -> (value: Option<String>)
        ensures
            value == value_of(self.state.values@, session_id@, kind),
    {
        self.state.session_value(session_id, kind)
    }

    /// Sets the value of a kind for a session.
    pub fn set_session_value(
        &mut self,
        session_id: &String,
        kind: SessionValueKind,
        value: String,
        now: &Stamp,
    ) -> (done: Result<(), DbError>)
        requires
            old(self).wf(),
        ensures
            final(self).wf(),
            is_set(*old(self), *final(self), *session_id, kind, value, now.text, done),
    {
        if !session_exists(&self.sessions, session_id.as_str()) {
            return Err(DbError::UnknownSession);
        }
        put_value(&mut self.state.values, session_id, kind, value, &now.text);
        Ok(())
    }

    /// Reads, changes and writes the value of a kind for a session in one go.
    pub fn update_session_value<F: FnOnce(Option<String>) -> Result<String, DbError>>(
        &mut self,
        session_id: &String,
        kind: SessionValueKind,
        update: F,
        now: &Stamp,
    ) -> (done: Result<(), DbError>)
        requires
            old(self).wf(),
            update.requires((value_of(old(self).state.values@, session_id@, kind),)),
        ensures
            final(self).wf(),
            exists|next: Result<String, DbError>|
                {
                    &&& #[trigger] update.ensures(
                        (value_of(old(self).state.values@, session_id@, kind),),
                        next,
                    )
                    &&& match (next, done) {
                        (Err(e), _) => done == Err::<(), DbError>(e) && *final(self) == *old(self),
                        (Ok(value), Ok(())) => {
                            &&& turns::has_session(old(self).sessions@, session_id@)
                            &&& final(self).state.values@ == with_value(
                                old(self).state.values@,
                                *session_id,
                                kind,
                                value,
                                now.text,
                            )
                            &&& *final(self) == (ConversationDb {
                                state: SessionTables {
                                    values: final(self).state.values,
                                    ..old(self).state
                                },
                                ..*old(self)
                            })
                        },
                        (Ok(_), Err(e)) => e == DbError::UnknownSession && !turns::has_session(
                            old(self).sessions@,
                            session_id@,
                        ) && *final(self) == *old(self),
                    }
                },
    {
        let current = self.session_value(session_id.as_str(), kind);
        let next = update(current);
        assert(update.ensures((value_of(old(self).state.values@, session_id@, kind),), next));
        match next {
            Ok(value) => self.set_session_value(session_id, kind, value, now),
            Err(e) => Err(e),
        }
    }

    /// Deletes the value of a kind for a session, and marks the old file as
    /// taken over, so that it does not come back.
    pub fn clear_session_value(&mut self, session_id: &String, kind: SessionValueKind, now: &Stamp)
        requires
            old(self).wf(),
        ensures
            final(self).wf(),
            is_cleared(*old(self), *final(self), *session_id, kind, now.text),
    {
        let test = |row: &ValueRow| -> (r: bool)
            ensures
                r == is_value(*row, session_id@, kind),
        { row.kind == kind && same_text(row.session_id.as_str(), session_id.as_str()) };
        delete_where(
            &mut self.state.values,
            test,
            Ghost(|row: ValueRow| is_value(row, session_id@, kind)),
        );
        if session_exists(&self.sessions, session_id.as_str()) {
            mark_imported(
                &mut self.state.imports,
                session_id,
                LegacyKind::Value(kind),
                &now.text,
            );
        }
    }

    /// The lines typed at the terminal of a session, oldest first.
    pub fn repl_history(&self, session_id: &str) -> (entries: Vec<String>)
        ensures
            entries@ == history_of(self.state.history@, session_id@),
    {
        self.state.repl_history(session_id)
    }

    /// Adds a line typed at the terminal of a session, and keeps the last
    /// `keep`.
    pub fn append_repl_history(
        &mut self,
        session_id: &String,
        entry: String,
        keep: usize,
        now: &Stamp,
    ) -> (done: Result<(), DbError>)
        requires
            old(self).wf(),
        ensures
            final(self).wf(),
            is_typed(*old(self), *final(self), *session_id, entry, keep as int, now.text, done),
    {
        if !session_exists(&self.sessions, session_id.as_str()) {
            return Err(DbError::UnknownSession);
        }
        self.state.history.push(
            HistoryRow {
                session_id: session_id.clone(),
                entry,
                created_at: now.text.clone(),
            },
        );
        self.state.keep_newest(session_id.as_str(), keep);
        Ok(())
    }
}

// ---------------------------------------------------------------------------
// Laws
// ---------------------------------------------------------------------------

/// A value that was set is read again, and no other value changes.
pub proof fn a_value_round_trips(
    values: Seq<ValueRow>,
    session: String,
    kind: SessionValueKind,
    value: String,
    now: String,
    other: Seq<char>,
    other_kind: SessionValueKind,
)
    ensures
        value_of(with_value(values, session, kind, value, now), session@, kind) == Some(value),
        other != session@ || other_kind != kind ==> value_of(
            with_value(values, session, kind, value, now),
            other,
            other_kind,
        ) == value_of(values, other, other_kind),
{
    let after = with_value(values, session, kind, value, now);
    lemma_value_at(values, session@, kind, 0);
    lemma_value_at(after, session@, kind, 0);
    let at = value_at(values, session@, kind, 0);
    let n = if at >= 0 {
        at
    } else {
        values.len() as int
    };
    lemma_value_at_is(after, session@, kind, n);
    if other != session@ || other_kind != kind {
        lemma_value_at(values, other, other_kind, 0);
        lemma_value_at(after, other, other_kind, 0);
        let was = value_at(values, other, other_kind, 0);
        let is = value_at(after, other, other_kind, 0);
        if was >= 0 {
            lemma_value_at_is(after, other, other_kind, was);
        } else if is >= 0 {
            if is < values.len() {
                assert(is_value(values[is], other, other_kind));
            }
        }
    }
}

pub proof fn lemma_value_at(values: Seq<ValueRow>, session: Seq<char>, kind: SessionValueKind, from: int)
    requires
        0 <= from,
    ensures
        ({
            let at = value_at(values, session, kind, from);
            &&& at == -1 || from <= at < values.len()
            &&& at >= 0 ==> is_value(values[at], session, kind)
            &&& forall|i: int|
                from <= i < values.len() && (at < 0 || i < at) ==> !is_value(
                    #[trigger] values[i],
                    session,
                    kind,
                )
        }),
    decreases values.len() - from,
{
    if from < values.len() && !is_value(values[from], session, kind) {
        lemma_value_at(values, session, kind, from + 1);
    }
}

proof fn lemma_value_at_is(values: Seq<ValueRow>, session: Seq<char>, kind: SessionValueKind, at: int)
    requires
        0 <= at < values.len(),
        is_value(values[at], session, kind),
        forall|i: int| 0 <= i < at ==> !is_value(#[trigger] values[i], session, kind),
    ensures
        value_at(values, session, kind, 0) == at,
{
    lemma_value_at(values, session, kind, 0);
}

/// A value that was cleared does not come back from its old file.
pub proof fn a_cleared_value_stays_cleared(
    before: ConversationDb,
    after: ConversationDb,
    session: String,
    kind: SessionValueKind,
    now: String,
)
    requires
        turns::has_session(before.sessions@, session@),
        after.state.values@ == table::without(
            before.state.values@,
            |row: ValueRow| is_value(row, session@, kind),
        ),
        after.state.imports@ == with_import(
            before.state.imports@,
            session,
            LegacyKind::Value(kind),
            now,
        ),
    ensures
        value_of(after.state.values@, session@, kind) is None,
        !import_due(after, session@, LegacyKind::Value(kind)),
{
    let chosen = |row: ValueRow| is_value(row, session@, kind);
    lemma_value_at(after.state.values@, session@, kind, 0);
    let at = value_at(after.state.values@, session@, kind, 0);
    if at >= 0 {
        table::lemma_filtered(before.state.values@, |row: ValueRow| !chosen(row), at);
    }
    let imports = after.state.imports@;
    if !is_imported(before.state.imports@, session@, LegacyKind::Value(kind)) {
        assert(imports[imports.len() - 1].session_id@ == session@);
    }
}

/// An old file is taken over once.
pub proof fn a_file_is_taken_over_once(
    before: ConversationDb,
    after: ConversationDb,
    session: String,
    kind: LegacyKind,
    content: Option<LegacyContent>,
    now: String,
)
    requires
        imported_once(before, session, kind, content, now, after),
    ensures
        !import_due(after, session@, kind),
{
    if import_due(before, session@, kind) {
        let imports = after.state.imports@;
        assert(imports[imports.len() - 1].session_id@ == session@);
    }
}

/// What is typed at a terminal comes after what was there, only the last
/// `keep` lines stay, and the lines of other sessions all do.
pub proof fn history_keeps_the_newest(
    rows: Seq<HistoryRow>,
    row: HistoryRow,
    keep: int,
    other: Seq<char>,
)
    requires
        keep >= 0,
    ensures
        ({
            let session = row.session_id@;
            let all = history_of(rows, session).push(row.entry);
            let after = newest(rows.push(row), session, keep);
            &&& history_of(after, session) == all.skip(
                if all.len() > keep {
                    all.len() - keep
                } else {
                    0
                },
            )
            &&& other != session ==> history_of(after, other) == history_of(rows, other)
        }),
{
    let session = row.session_id@;
    let grown = rows.push(row);
    let own = |r: HistoryRow| r.session_id@ == session;
    let theirs = |r: HistoryRow| r.session_id@ == other;
    reveal(Seq::filter);
    assert(grown.drop_last() =~= rows);
    assert(history_of(grown, session) =~= history_of(rows, session).push(row.entry));
    let all = history_of(grown, session);
    let k = all.len() - keep;
    lemma_without_first(grown, session, k, session);
    if other != session {
        assert(history_of(grown, other) =~= history_of(rows, other));
        lemma_without_first(grown, session, k, other);
    }
    assert(all.skip(0) =~= all);
}

proof fn lemma_without_first(rows: Seq<HistoryRow>, session: Seq<char>, k: int, of: Seq<char>)
    ensures
        of != session ==> history_of(without_first(rows, session, k), of) == history_of(rows, of),
        of == session && 0 <= k <= history_of(rows, of).len() ==> history_of(
            without_first(rows, session, k),
            of,
        ) == history_of(rows, of).skip(k),
        k <= 0 ==> without_first(rows, session, k) == rows,
    decreases rows.len(),
{
    if rows.len() > 0 && k > 0 {
        let rest = rows.skip(1);
        let one = seq![rows[0]];
        let own = |row: HistoryRow| row.session_id@ == of;
        assert(rows =~= one + rest);
        Seq::filter_distributes_over_add(one, rest, own);
        lemma_history_one(rows[0], of);
        assert(history_of(rows, of) =~= history_of(one, of) + history_of(rest, of));
        if rows[0].session_id@ == session {
            lemma_without_first(rest, session, k - 1, of);
            if of == session {
                assert(history_of(rows, of).skip(1) =~= history_of(rest, of));
                if k <= history_of(rows, of).len() {
                    assert(history_of(rest, of).skip(k - 1) =~= history_of(rows, of).skip(k));
                }
            } else {
                assert(history_of(rows, of) =~= history_of(rest, of));
            }
        } else {
            lemma_without_first(rest, session, k, of);
            let tail = without_first(rest, session, k);
            Seq::filter_distributes_over_add(one, tail, own);
            assert(history_of(one + tail, of) =~= history_of(one, of) + history_of(tail, of));
            if of == session {
                assert(history_of(one, of).len() == 0);
                assert(history_of(rows, of) =~= history_of(rest, of));
                assert(history_of(one + tail, of) =~= history_of(tail, of));
            }
        }
    } else if k == 0 {
        assert(history_of(rows, of).skip(0) =~= history_of(rows, of));
    }
}

proof fn lemma_history_one(row: HistoryRow, of: Seq<char>)
    ensures
        history_of(seq![row], of) == (if row.session_id@ == of {
            seq![row.entry]
        } else {
            Seq::<String>::empty()
        }),
{
    reveal_with_fuel(Seq::filter, 2);
    assert(seq![row].drop_last() =~= Seq::<HistoryRow>::empty());
    assert(history_of(seq![row], of) =~= (if row.session_id@ == of {
        seq![row.entry]
    } else {
        Seq::<String>::empty()
    }));
}

/// The value that is read is that of the first row of the session and the kind,
/// and there is none only where there is no such row.
pub proof fn a_value_is_read_where_it_stands(
    tables: &SessionTables,
    session: &str,
    kind: SessionValueKind,
    value: Option<String>,
    i: int,
)
    requires
        call_ensures(SessionTables::session_value, (tables, session, kind), value),
    ensures
        0 <= i < tables.values@.len() && tables.values@[i].session_id@ == session@
            && tables.values@[i].kind == kind && (forall|k: int|
            0 <= k < i ==> (#[trigger] tables.values@[k]).session_id@ != session@
                || tables.values@[k].kind != kind) ==> value == Some(tables.values@[i].value),
        (forall|k: int|
            0 <= k < tables.values@.len() ==> (#[trigger] tables.values@[k]).session_id@ != session@
                || tables.values@[k].kind != kind) ==> value is None,
{
    lemma_value_at(tables.values@, session@, kind, 0);
    let at = value_at(tables.values@, session@, kind, 0);
    if at >= 0 {
        let row = tables.values@[at];
    }
    if 0 <= i < tables.values@.len() {
        assert(is_value(tables.values@[i], session@, kind) == (tables.values@[i].session_id@
            == session@ && tables.values@[i].kind == kind));
    }
}

/// Setting a value is done exactly where the session is there. It is then read
/// again, and no other value changes.
pub proof fn a_set_value_is_read(
    before: ConversationDb,
    after: ConversationDb,
    session: String,
    kind: SessionValueKind,
    value: String,
    now: String,
    done: Result<(), DbError>,
    mine: &str,
    theirs: &str,
    other_kind: SessionValueKind,
    read: Option<String>,
    read_other: Option<String>,
    was: Option<String>,
)
    requires
        is_set(before, after, session, kind, value, now, done),
        mine@ == session@,
        theirs@ != session@ || other_kind != kind,
        call_ensures(ConversationDb::session_value, (&after, mine, kind), read),
        call_ensures(ConversationDb::session_value, (&after, theirs, other_kind), read_other),
        call_ensures(ConversationDb::session_value, (&before, theirs, other_kind), was),
    ensures
        done is Ok <==> exists|s: int|
            0 <= s < before.sessions@.len() && (#[trigger] before.sessions@[s]).session_id@
                == session@,
        done is Err ==> after == before,
        done is Ok ==> read == Some(value) && read_other == was,
        after.state.history == before.state.history && after.state.imports
            == before.state.imports && after.turns == before.turns,
{
    a_value_round_trips(before.state.values@, session, kind, value, now, theirs@, other_kind);
}

/// Clearing a value takes it away and no other, and the old file that it may
/// have come from counts as taken over.
pub proof fn a_cleared_value_is_gone(
    before: ConversationDb,
    after: ConversationDb,
    session: String,
    kind: SessionValueKind,
    now: String,
)
    requires
        is_cleared(before, after, session, kind, now),
    ensures
        table::is_rest(
            before.state.values@,
            after.state.values@,
            |row: ValueRow| row.session_id@ == session@ && row.kind == kind,
        ),
        (exists|s: int|
            0 <= s < before.sessions@.len() && (#[trigger] before.sessions@[s]).session_id@
                == session@) ==> exists|k: int|
            0 <= k < after.state.imports@.len() && (#[trigger] after.state.imports@[k]).session_id@
                == session@ && after.state.imports@[k].kind == LegacyKind::Value(kind),
        forall|k: int|
            0 <= k < before.state.imports@.len() ==> after.state.imports@[k]
                == #[trigger] before.state.imports@[k],
        after.state.history == before.state.history && after.turns == before.turns,
{
    table::lemma_rest_of(
        before.state.values@,
        after.state.values@,
        |row: ValueRow| row.session_id@ == session@ && row.kind == kind,
    );
    let old = before.state.imports@;
    if turns::has_session(before.sessions@, session@) {
        if is_imported(old, session@, LegacyKind::Value(kind)) {
            let k = choose|k: int|
                0 <= k < old.len() && (#[trigger] old[k]).session_id@ == session@ && old[k].kind
                    == LegacyKind::Value(kind);
            let row = after.state.imports@[k];
        } else {
            let row = after.state.imports@[old.len() as int];
        }
    }
}

/// Taking over an old file, where it is due, writes its value down unless there
/// is one, or adds its lines behind those that are there, and marks it as taken
/// over. No other value and no other line changes.
pub proof fn an_old_file_is_taken_over(
    before: ConversationDb,
    after: ConversationDb,
    session: String,
    kind: LegacyKind,
    content: Option<LegacyContent>,
    now: String,
    k: int,
)
    requires
        imported_once(before, session, kind, content, now, after),
        import_due(before, session@, kind),
    ensures
        (kind, content) matches (
            LegacyKind::Value(value_kind),
            Some(LegacyContent::Value(value)),
        ) ==> {
            let was = value_of(before.state.values@, session@, value_kind);
            &&& was is None ==> value_of(after.state.values@, session@, value_kind) == Some(value)
            &&& was is Some ==> after.state.values@ == before.state.values@
            &&& after.state.history@ == before.state.history@
        },
        (kind, content) matches (LegacyKind::ReplHistory, Some(LegacyContent::Lines(lines))) ==> {
            let n = before.state.history@.len() as int;
            &&& after.state.history@.len() == n + lines@.len()
            &&& after.state.history@.take(n) == before.state.history@
            &&& 0 <= k < lines@.len() ==> after.state.history@[n + k].entry == lines@[k]
                && after.state.history@[n + k].session_id == session
            &&& after.state.values@ == before.state.values@
        },
        content is None ==> after.state.values@ == before.state.values@ && after.state.history@
            == before.state.history@,
        after.state.imports@.len() == before.state.imports@.len() + 1,
        after.state.imports@.last().session_id == session && after.state.imports@.last().kind
            == kind,
{
    if let (LegacyKind::Value(value_kind), Some(LegacyContent::Value(value))) = (kind, content) {
        a_value_round_trips(
            before.state.values@,
            session,
            value_kind,
            value,
            now,
            session@,
            value_kind,
        );
    }
    if let (LegacyKind::ReplHistory, Some(LegacyContent::Lines(lines))) = (kind, content) {
        assert(after.state.history@.take(before.state.history@.len() as int)
            =~= before.state.history@);
    }
}

/// The lines of a session are told all of them in their order, and no others.
pub proof fn every_line_is_told(tables: &SessionTables, session: &str, entries: Vec<String>, i: int)
    requires
        call_ensures(SessionTables::repl_history, (tables, session), entries),
        0 <= i < tables.history@.len(),
    ensures
        ({
            let own = |row: HistoryRow| row.session_id@ == session@;
            &&& entries@.len() == table::count(
                tables.history@,
                own,
                tables.history@.len() as int,
            )
            &&& own(tables.history@[i]) ==> entries@[table::count(tables.history@, own, i)]
                == tables.history@[i].entry
        }),
{
    let own = |row: HistoryRow| row.session_id@ == session@;
    table::lemma_count(tables.history@, own, tables.history@.len() as int);
    if own(tables.history@[i]) {
        table::lemma_chosen_place(tables.history@, own, i);
    }
}

/// A line that is typed is the last of its session, where any is kept, behind
/// those that were there, of which the oldest go. Those of other sessions stay.
pub proof fn a_typed_line_is_the_last(
    before: ConversationDb,
    after: ConversationDb,
    session: String,
    entry: String,
    keep: int,
    now: String,
    mine: &str,
    theirs: &str,
    lines: Vec<String>,
    now_lines: Vec<String>,
    other_lines: Vec<String>,
    other_now: Vec<String>,
)
    requires
        is_typed(before, after, session, entry, keep, now, Ok(())),
        keep >= 0,
        mine@ == session@ && theirs@ != session@,
        call_ensures(ConversationDb::repl_history, (&before, mine), lines),
        call_ensures(ConversationDb::repl_history, (&after, mine), now_lines),
        call_ensures(ConversationDb::repl_history, (&before, theirs), other_lines),
        call_ensures(ConversationDb::repl_history, (&after, theirs), other_now),
    ensures
        now_lines@.len() == if lines@.len() + 1 <= keep {
            lines@.len() as int + 1
        } else {
            keep
        },
        keep > 0 ==> now_lines@.last() == entry,
        forall|k: int|
            0 <= k < now_lines@.len() - 1 ==> #[trigger] now_lines@[k] == lines@[lines@.len() + 1
                - now_lines@.len() + k],
        other_now@ == other_lines@,
{
    let row = HistoryRow { session_id: session, entry, created_at: now };
    history_keeps_the_newest(before.state.history@, row, keep, theirs@);
}

/// Each kind has its own name.
pub proof fn kinds_have_their_names(kind: LegacyKind, name: &'static str)
    requires
        call_ensures(LegacyKind::as_str, (kind,), name),
    ensures
        kind == LegacyKind::ReplHistory ==> name@ == "repl_history"@,
        kind == LegacyKind::Value(SessionValueKind::Todos) ==> name@ == "todos"@,
        kind == LegacyKind::Value(SessionValueKind::PromptFingerprint) ==> name@
            == "prompt_fingerprint"@,
        kind == LegacyKind::Value(SessionValueKind::ThinkingPins) ==> name@ == "thinking_pins"@,
{
}

/// What a session kept in an old file was taken over where that was noted, for
/// the session and the kind of file.
pub proof fn what_was_taken_over_is_noted(
    imports: &Vec<ImportRow>,
    session: &str,
    kind: LegacyKind,
    done: bool,
    i: int,
)
    requires
        call_ensures(legacy_imported, (imports, session, kind), done),
    ensures
        0 <= i < imports@.len() && imports@[i].session_id@ == session@ && imports@[i].kind == kind
            ==> done,
        done ==> exists|k: int|
            0 <= k < imports@.len() && (#[trigger] imports@[k]).session_id@ == session@
                && imports@[k].kind == kind,
{
    if 0 <= i < imports@.len() && imports@[i].session_id@ == session@ && imports@[i].kind == kind {
        assert(is_imported(imports@, session@, kind));
    }
}

} // verus!
