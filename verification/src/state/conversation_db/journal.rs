//! What a turn leaves behind while it runs: events, reports of tools, what
//! they touched, and questions.

use vstd::prelude::*;

use crate::text::same_text;

use super::queue;
use super::rows::{
    DbError, EventRow, FootprintRow, QuestionRow, SegmentRow, SegmentStatus, Stamp, ToolReportRow,
    TurnRow, TurnStatus,
};
use super::{find_turn, ConversationDb};

verus! {

/// The longest text of an event, in bytes.
pub const MAX_JOURNAL_TEXT_EVENT_BYTES: usize = 67_108_864;

/// The longest binary content of an event, in bytes.
pub const MAX_JOURNAL_BLOB_EVENT_BYTES: usize = 8_388_608;

/// Something that happened in a turn.
#[derive(Debug)]
pub struct NewEvent {
    pub kind: String,
    pub call_id: Option<String>,
    pub name: Option<String>,
    pub text_payload: Option<String>,
    pub blob_payload: Option<Vec<u8>>,
    pub ok: Option<bool>,
}

/// Whether the text of an event is too long.
pub open spec fn text_too_long(event: NewEvent) -> bool {
    event.text_payload is Some && vstd::utf8::encode_utf8(event.text_payload->Some_0@).len()
        > MAX_JOURNAL_TEXT_EVENT_BYTES
}

/// Whether the binary content of an event is too long.
pub open spec fn blob_too_long(event: NewEvent) -> bool {
    event.blob_payload is Some && event.blob_payload->Some_0@.len() > MAX_JOURNAL_BLOB_EVENT_BYTES
}

/// Where a segment stands, and -1 where it does not, among the first `n`.
pub open spec fn segment_at(
    segments: Seq<SegmentRow>,
    turn_id: Seq<char>,
    revision: i64,
    index: i64,
    n: int,
) -> int
    decreases n,
{
    if n <= 0 {
        -1
    } else if queue::of_generation(segments[n - 1], turn_id, revision) && segments[n
        - 1].segment_index == index {
        n - 1
    } else {
        segment_at(segments, turn_id, revision, index, n - 1)
    }
}

/// Where a segment stands.
fn find_segment(segments: &Vec<SegmentRow>, turn_id: &str, revision: i64, index: i64) -> (at: Option<
    usize,
>)
    ensures
        match at {
            Some(i) => i < segments.len() && segment_at(
                segments@,
                turn_id@,
                revision,
                index,
                segments@.len() as int,
            ) == i,
            None => segment_at(segments@, turn_id@, revision, index, segments@.len() as int)
                == -1,
        },
{
    let mut n: usize = segments.len();
    while n > 0
        invariant
            n <= segments@.len(),
            segment_at(segments@, turn_id@, revision, index, segments@.len() as int) == segment_at(
                segments@,
                turn_id@,
                revision,
                index,
                n as int,
            ),
        decreases n,
    {
        let at: usize = n - 1;
        if segments[at].revision == revision && segments[at].segment_index == index && same_text(
            segments[at].turn_id.as_str(),
            turn_id,
        ) {
            return Some(at);
        }
        n -= 1;
    }
    None
}

/// Whether events may be added to a segment: its turn is running at that
/// revision, and the segment was not replaced.
pub open spec fn accepts_events(
    db: ConversationDb,
    turn_id: Seq<char>,
    revision: i64,
    index: i64,
) -> bool {
    let at = segment_at(db.segments@, turn_id, revision, index, db.segments@.len() as int);
    super::redo::runs_at(db, turn_id, revision) && at >= 0 && db.segments@[at].status
        != SegmentStatus::Superseded
}

/// The row of an event.
pub open spec fn event_row(
    turn_id: String,
    revision: i64,
    segment_index: i64,
    event: NewEvent,
    now: String,
) -> EventRow {
    EventRow {
        turn_id,
        revision,
        segment_index,
        kind: event.kind,
        call_id: event.call_id,
        name: event.name,
        text_payload: event.text_payload,
        blob_payload: event.blob_payload,
        ok: event.ok,
        created_at: now,
    }
}

/// What adding an event comes to. One that is too long, or for a segment that
/// takes none, is turned down.
pub open spec fn is_appended(
    before: ConversationDb,
    after: ConversationDb,
    turn_id: Seq<char>,
    revision: i64,
    segment_index: i64,
    event: NewEvent,
    now: String,
    done: Result<(), DbError>,
) -> bool {
    match done {
        Ok(()) => {
            let turn = before.turns@[before.turn_at(turn_id)];
            &&& !text_too_long(event) && !blob_too_long(event)
            &&& accepts_events(before, turn_id, revision, segment_index)
            &&& after.events@ == before.events@.push(
                event_row(turn.turn_id, revision, segment_index, event, now),
            )
            &&& after == (ConversationDb { events: after.events, ..before })
        },
        Err(e) => {
            &&& after == before
            &&& if text_too_long(event) {
                e == DbError::TextEventTooLong
            } else if blob_too_long(event) {
                e == DbError::BlobEventTooLong
            } else {
                e == DbError::JournalInactive && !accepts_events(
                    before,
                    turn_id,
                    revision,
                    segment_index,
                )
            }
        },
    }
}

/// What replacing a segment comes to. One that is not running is turned down.
pub open spec fn is_superseded(
    before: ConversationDb,
    after: ConversationDb,
    turn_id: String,
    revision: i64,
    segment_index: i64,
    now: String,
    done: Result<(), DbError>,
) -> bool {
    let at = segment_at(
        before.segments@,
        turn_id@,
        revision,
        segment_index,
        before.segments@.len() as int,
    );
    let open = at >= 0 && before.segments@[at].status == SegmentStatus::Running;
    match done {
        Ok(()) => {
            &&& open
            &&& after.segments@ == before.segments@.update(
                at,
                SegmentRow {
                    status: SegmentStatus::Superseded,
                    finished_at: Some(now),
                    ..before.segments@[at]
                },
            )
            &&& after.events@.len() == before.events@.len() + 1
            &&& after.events@.drop_last() == before.events@
            &&& after.events@.last().kind@ == "generation_superseded"@
            &&& after.events@.last() == (EventRow {
                turn_id,
                revision,
                segment_index,
                kind: after.events@.last().kind,
                call_id: None,
                name: None,
                text_payload: None,
                blob_payload: None,
                ok: None,
                created_at: now,
            })
            &&& after == (ConversationDb {
                segments: after.segments,
                events: after.events,
                ..before
            })
        },
        Err(e) => e == DbError::SegmentChanged && !open && after == before,
    }
}

/// What adding reports of tools comes to.
pub open spec fn are_reported(
    before: ConversationDb,
    after: ConversationDb,
    turn_id: String,
    reports: Seq<String>,
    done: Result<(), DbError>,
) -> bool {
    match done {
        Ok(()) => {
            &&& reports.len() == 0 || before.turn_at(turn_id@) >= 0
            &&& after.tool_reports@ == before.tool_reports@ + reports.map_values(
                |report: String| ToolReportRow { turn_id, report },
            )
            &&& after == (ConversationDb { tool_reports: after.tool_reports, ..before })
        },
        Err(e) => {
            &&& e == DbError::UnknownTurn
            &&& reports.len() > 0 && before.turn_at(turn_id@) == -1
            &&& after == before
        },
    }
}

impl ConversationDb {
    /// Adds an event to the journal of a running turn.
    pub fn append_turn_journal_event(
        &mut self,
        turn_id: &str,
        revision: i64,
        segment_index: i64,
        event: NewEvent,
        now: &Stamp,
    ) -> (done: Result<(), DbError>)
        requires
            old(self).wf(),
        ensures
            final(self).wf(),
            is_appended(
                *old(self),
                *final(self),
                turn_id@,
                revision,
                segment_index,
                event,
                now.text,
                done,
            ),
    {
        if let Some(text) = &event.text_payload {
            if text.as_str().as_bytes().len() > MAX_JOURNAL_TEXT_EVENT_BYTES {
                return Err(DbError::TextEventTooLong);
            }
        }
        if let Some(blob) = &event.blob_payload {
            if blob.len() > MAX_JOURNAL_BLOB_EVENT_BYTES {
                return Err(DbError::BlobEventTooLong);
            }
        }
        let at: usize = match find_turn(&self.turns, turn_id) {
            Some(at) => at,
            None => return Err(DbError::JournalInactive),
        };
        if self.turns[at].revision != revision || self.turns[at].status != TurnStatus::Running {
            return Err(DbError::JournalInactive);
        }
        match find_segment(&self.segments, turn_id, revision, segment_index) {
            Some(segment) => if self.segments[segment].status == SegmentStatus::Superseded {
                return Err(DbError::JournalInactive);
            },
            None => return Err(DbError::JournalInactive),
        }
        let own_id = self.turns[at].turn_id.clone();
        self.events.push(
            EventRow {
                turn_id: own_id,
                revision,
                segment_index,
                kind: event.kind,
                call_id: event.call_id,
                name: event.name,
                text_payload: event.text_payload,
                blob_payload: event.blob_payload,
                ok: event.ok,
                created_at: now.text.clone(),
            },
        );
        Ok(())
    }

    /// Marks a running segment as replaced by a later generation.
    pub fn supersede_turn_journal_segment(
        &mut self,
        turn_id: &String,
        revision: i64,
        segment_index: i64,
        now: &Stamp,
    ) -> (done: Result<(), DbError>)
        requires
            old(self).wf(),
        ensures
            final(self).wf(),
            is_superseded(
                *old(self),
                *final(self),
                *turn_id,
                revision,
                segment_index,
                now.text,
                done,
            ),
    {
        let at: usize = match find_segment(
            &self.segments,
            turn_id.as_str(),
            revision,
            segment_index,
        ) {
            Some(at) => at,
            None => return Err(DbError::SegmentChanged),
        };
        if self.segments[at].status != SegmentStatus::Running {
            return Err(DbError::SegmentChanged);
        }
        let ghost before = *self;
        let row = &mut self.segments[at];
        row.status = SegmentStatus::Superseded;
        row.finished_at = Some(now.text.clone());
        proof {
            assert(self.segments@ =~= before.segments@.update(
                at as int,
                self.segments@[at as int],
            ));
            queue::lemma_segment_updated(before.segments@, at as int, self.segments@[at as int]);
        }
        self.events.push(
            EventRow {
                turn_id: turn_id.clone(),
                revision,
                segment_index,
                kind: "generation_superseded".to_owned(),
                call_id: None,
                name: None,
                text_payload: None,
                blob_payload: None,
                ok: None,
                created_at: now.text.clone(),
            },
        );
        assert(self.events@.drop_last() =~= before.events@);
        Ok(())
    }

    /// Adds reports of tools to a turn. Reports of a turn that is not there
    /// are turned down.
    pub fn append_tool_reports(&mut self, turn_id: &String, reports: &Vec<String>) -> (done: Result<
        (),
        DbError,
    >)
        requires
            old(self).wf(),
        ensures
            final(self).wf(),
            are_reported(*old(self), *final(self), *turn_id, reports@, done),
    {
        let ghost before = self.tool_reports@;
        let ghost row = |report: String| ToolReportRow { turn_id: *turn_id, report };
        if reports.len() > 0 && find_turn(&self.turns, turn_id.as_str()).is_none() {
            return Err(DbError::UnknownTurn);
        }
        let mut i: usize = 0;
        assert(reports@.take(0).map_values(row) =~= Seq::empty());
        while i < reports.len()
            invariant
                i <= reports@.len(),
                row == (|report: String| ToolReportRow { turn_id: *turn_id, report }),
                self.tool_reports@ =~= before + reports@.take(i as int).map_values(row),
                self.wf(),
                *self == (ConversationDb { tool_reports: self.tool_reports, ..*old(self) }),
            decreases reports@.len() - i,
        {
            assert(reports@.take(i + 1).map_values(row) =~= reports@.take(i as int).map_values(
                row,
            ).push(row(reports@[i as int])));
            self.tool_reports.push(
                ToolReportRow { turn_id: turn_id.clone(), report: reports[i].clone() },
            );
            i += 1;
        }
        assert(reports@.take(reports@.len() as int) =~= reports@);
        Ok(())
    }

    /// Writes the transient tail of a turn, as its text.
    pub fn set_turn_context_messages(&mut self, turn_id: &str, messages: String)
        requires
            old(self).wf(),
        ensures
            final(self).wf(),
            has_tail(*old(self), *final(self), turn_id@, messages),
    {
        if let Some(at) = find_turn(&self.turns, turn_id) {
            let ghost before = self.turns@;
            let row = &mut self.turns[at];
            row.context_messages = messages;
            proof {
                assert(self.turns@ =~= before.update(at as int, self.turns@[at as int]));
                super::lemma_turn_updated(before, at as int, self.turns@[at as int]);
            }
        }
    }

    /// Writes the structured flow of a turn's tools, as its text.
    pub fn set_turn_tool_flow(&mut self, turn_id: &str, flow: String)
        requires
            old(self).wf(),
        ensures
            final(self).wf(),
            has_flow(*old(self), *final(self), turn_id@, flow),
    {
        if let Some(at) = find_turn(&self.turns, turn_id) {
            let ghost before = self.turns@;
            let row = &mut self.turns[at];
            row.tool_flow = Some(flow);
            proof {
                assert(self.turns@ =~= before.update(at as int, self.turns@[at as int]));
                super::lemma_turn_updated(before, at as int, self.turns@[at as int]);
            }
        }
    }
}

/// The tables with one turn changed, where it is there.
pub open spec fn turn_changed(
    before: ConversationDb,
    after: ConversationDb,
    turn_id: Seq<char>,
    change: spec_fn(TurnRow) -> TurnRow,
) -> bool {
    let at = before.turn_at(turn_id);
    &&& after.turns@ == (if at >= 0 {
        before.turns@.update(at, change(before.turns@[at]))
    } else {
        before.turns@
    })
    &&& after == (ConversationDb { turns: after.turns, ..before })
}

/// Whether `after` is `before` with the transient tail of a turn written.
pub open spec fn has_tail(
    before: ConversationDb,
    after: ConversationDb,
    turn_id: Seq<char>,
    messages: String,
) -> bool {
    turn_changed(
        before,
        after,
        turn_id,
        |turn: TurnRow| TurnRow { context_messages: messages, ..turn },
    )
}

/// Whether `after` is `before` with the flow of a turn's tools written.
pub open spec fn has_flow(
    before: ConversationDb,
    after: ConversationDb,
    turn_id: Seq<char>,
    flow: String,
) -> bool {
    turn_changed(before, after, turn_id, |turn: TurnRow| TurnRow { tool_flow: Some(flow), ..turn })
}

// ---------------------------------------------------------------------------
// Questions
// ---------------------------------------------------------------------------

/// The highest index of a question of a turn, -1 where it has none, among the
/// first `n`.
pub open spec fn last_exchange(questions: Seq<QuestionRow>, turn_id: Seq<char>, n: int) -> int
    decreases n,
{
    if n <= 0 {
        -1
    } else {
        let before = last_exchange(questions, turn_id, n - 1);
        let row = questions[n - 1];
        if row.turn_id@ == turn_id && (row.exchange_index > before || !has_question(
            questions,
            turn_id,
            n - 1,
        )) {
            row.exchange_index as int
        } else {
            before
        }
    }
}

/// Whether one of the first `n` questions is of a turn.
pub open spec fn has_question(questions: Seq<QuestionRow>, turn_id: Seq<char>, n: int) -> bool {
    exists|i: int| 0 <= i < n && (#[trigger] questions[i]).turn_id@ == turn_id
}

/// What adding a question comes to.
pub open spec fn is_asked(
    before: ConversationDb,
    after: ConversationDb,
    turn_id: String,
    payload: String,
    done: Result<(), DbError>,
) -> bool {
    let last = last_exchange(before.questions@, turn_id@, before.questions@.len() as int);
    match done {
        Ok(()) => {
            &&& last < i64::MAX && before.turn_at(turn_id@) >= 0
            &&& after.questions@ == before.questions@.push(
                QuestionRow { turn_id, exchange_index: (last + 1) as i64, payload },
            )
            &&& after == (ConversationDb { questions: after.questions, ..before })
        },
        Err(e) => {
            &&& after == before
            &&& if last == i64::MAX {
                e == DbError::SequenceFull
            } else {
                e == DbError::UnknownTurn && before.turn_at(turn_id@) == -1
            }
        },
    }
}

impl ConversationDb {
    /// Adds a question and its answer to a turn, after those it has. One of a
    /// turn that is not there is turned down.
    pub fn append_question_exchange(&mut self, turn_id: &String, payload: String) -> (done: Result<
        (),
        DbError,
    >)
        requires
            old(self).wf(),
        ensures
            final(self).wf(),
            is_asked(*old(self), *final(self), *turn_id, payload, done),
    {
        let questions = &self.questions;
        let mut any = false;
        let mut last: i64 = -1;
        let mut i: usize = 0;
        while i < questions.len()
            invariant
                i <= questions@.len(),
                questions@ == old(self).questions@,
                *self == *old(self),
                any == has_question(questions@, turn_id@, i as int),
                last == last_exchange(questions@, turn_id@, i as int),
            decreases questions@.len() - i,
        {
            let own = same_text(questions[i].turn_id.as_str(), turn_id.as_str());
            if own && (!any || questions[i].exchange_index > last) {
                last = questions[i].exchange_index;
            }
            proof {
                if own {
                    assert(questions@[i as int].turn_id@ == turn_id@);
                } else if has_question(questions@, turn_id@, i + 1) {
                    let k = choose|k: int|
                        0 <= k < i + 1 && (#[trigger] questions@[k]).turn_id@ == turn_id@;
                    assert(k < i);
                }
            }
            if own {
                any = true;
            }
            i += 1;
        }
        if last == i64::MAX {
            return Err(DbError::SequenceFull);
        }
        if find_turn(&self.turns, turn_id.as_str()).is_none() {
            return Err(DbError::UnknownTurn);
        }
        self.questions.push(
            QuestionRow { turn_id: turn_id.clone(), exchange_index: last + 1, payload },
        );
        Ok(())
    }
}

// ---------------------------------------------------------------------------
// Footprints
// ---------------------------------------------------------------------------

/// Whether a footprint of a turn is there.
pub open spec fn has_footprint(
    rows: Seq<FootprintRow>,
    turn_id: Seq<char>,
    kind: Seq<char>,
    item: Seq<char>,
) -> bool {
    exists|i: int|
        0 <= i < rows.len() && is_footprint(#[trigger] rows[i], turn_id, kind, item)
}

/// Whether a row is a footprint of a turn.
pub open spec fn is_footprint(
    row: FootprintRow,
    turn_id: Seq<char>,
    kind: Seq<char>,
    item: Seq<char>,
) -> bool {
    row.turn_id@ == turn_id && row.kind@ == kind && row.item@ == item
}

/// The footprints after the first `n` things of `delta` were added to a turn,
/// each once.
pub open spec fn footprints_merged(
    rows: Seq<FootprintRow>,
    turn_id: String,
    delta: Seq<(String, String)>,
    n: int,
) -> Seq<FootprintRow>
    decreases n,
{
    if n <= 0 {
        rows
    } else {
        let before = footprints_merged(rows, turn_id, delta, n - 1);
        let (kind, item) = delta[n - 1];
        if has_footprint(before, turn_id@, kind@, item@) {
            before
        } else {
            before.push(FootprintRow { turn_id, kind, item })
        }
    }
}

/// Whether a footprint of a turn is there.
fn footprint_exists(rows: &Vec<FootprintRow>, turn_id: &str, kind: &str, item: &str) -> (r: bool)
    ensures
        r == has_footprint(rows@, turn_id@, kind@, item@),
{
    let mut i: usize = 0;
    while i < rows.len()
        invariant
            i <= rows@.len(),
            forall|k: int|
                0 <= k < i ==> !is_footprint(#[trigger] rows@[k], turn_id@, kind@, item@),
        decreases rows@.len() - i,
    {
        if same_text(rows[i].turn_id.as_str(), turn_id) && same_text(rows[i].kind.as_str(), kind)
            && same_text(rows[i].item.as_str(), item) {
            assert(is_footprint(rows@[i as int], turn_id@, kind@, item@));
            return true;
        }
        i += 1;
    }
    false
}

/// What tools touched: kinds and things.
#[derive(Debug)]
pub struct ToolFootprint {
    pub items: Vec<(String, String)>,
}

/// Whether a thing is among those that tools touched.
pub open spec fn touches(items: Seq<(String, String)>, kind: Seq<char>, item: Seq<char>) -> bool {
    exists|i: int| 0 <= i < items.len() && is_touch(#[trigger] items[i], kind, item)
}

/// Whether an entry is a thing of a kind.
pub open spec fn is_touch(entry: (String, String), kind: Seq<char>, item: Seq<char>) -> bool {
    entry.0@ == kind && entry.1@ == item
}

/// Whether a thing is among those that tools touched.
fn touch_exists(items: &Vec<(String, String)>, kind: &str, item: &str) -> (r: bool)
    ensures
        r == touches(items@, kind@, item@),
{
    let mut i: usize = 0;
    while i < items.len()
        invariant
            i <= items@.len(),
            forall|k: int| 0 <= k < i ==> !is_touch(#[trigger] items@[k], kind@, item@),
        decreases items@.len() - i,
    {
        if same_text(items[i].0.as_str(), kind) && same_text(items[i].1.as_str(), item) {
            assert(is_touch(items@[i as int], kind@, item@));
            return true;
        }
        i += 1;
    }
    false
}

/// The footprints of a turn among the first `n` that `items` lacks, after
/// `items`.
pub open spec fn collected(
    items: Seq<(String, String)>,
    rows: Seq<FootprintRow>,
    turn_id: Seq<char>,
    n: int,
) -> Seq<(String, String)>
    decreases n,
{
    if n <= 0 {
        items
    } else {
        let before = collected(items, rows, turn_id, n - 1);
        let row = rows[n - 1];
        if row.turn_id@ == turn_id && !touches(before, row.kind@, row.item@) {
            before.push((row.kind, row.item))
        } else {
            before
        }
    }
}

/// What the tools of the first `n` of some turns of a session touched, each
/// thing once.
pub open spec fn merged_footprint(
    db: ConversationDb,
    session: Seq<char>,
    turn_ids: Seq<String>,
    n: int,
) -> Seq<(String, String)>
    decreases n,
{
    if n <= 0 {
        Seq::empty()
    } else {
        let before = merged_footprint(db, session, turn_ids, n - 1);
        let at = db.turn_at(turn_ids[n - 1]@);
        if at >= 0 && db.turns@[at].session_id@ == session {
            collected(before, db.footprints@, turn_ids[n - 1]@, db.footprints@.len() as int)
        } else {
            before
        }
    }
}

/// What adding what tools touched comes to.
pub open spec fn is_merged(
    before: ConversationDb,
    after: ConversationDb,
    turn_id: Seq<char>,
    items: Seq<(String, String)>,
) -> bool {
    &&& after.footprints@ == (if before.turn_at(turn_id) >= 0 {
        footprints_merged(
            before.footprints@,
            before.turns@[before.turn_at(turn_id)].turn_id,
            items,
            items.len() as int,
        )
    } else {
        before.footprints@
    })
    &&& after == (ConversationDb { footprints: after.footprints, ..before })
}

impl ConversationDb {
    /// Adds what tools touched to a turn, each thing once.
    pub fn merge_turn_footprint(&mut self, turn_id: &str, delta: &ToolFootprint)
        requires
            old(self).wf(),
        ensures
            final(self).wf(),
            is_merged(*old(self), *final(self), turn_id@, delta.items@),
    {
        let at: usize = match find_turn(&self.turns, turn_id) {
            Some(at) => at,
            None => return ,
        };
        let own_id = self.turns[at].turn_id.clone();
        let ghost before = self.footprints@;
        let mut i: usize = 0;
        while i < delta.items.len()
            invariant
                i <= delta.items@.len(),
                self.wf(),
                self.footprints@ == footprints_merged(before, own_id, delta.items@, i as int),
                *self == (ConversationDb { footprints: self.footprints, ..*old(self) }),
            decreases delta.items@.len() - i,
        {
            let (kind, item) = &delta.items[i];
            if !footprint_exists(
                &self.footprints,
                own_id.as_str(),
                kind.as_str(),
                item.as_str(),
            ) {
                self.footprints.push(
                    FootprintRow {
                        turn_id: own_id.clone(),
                        kind: kind.clone(),
                        item: item.clone(),
                    },
                );
            }
            i += 1;
        }
    }

    /// What the tools of some turns of a session touched, each thing once.
    pub fn load_merged_footprint(&self, session_id: &str, turn_ids: &Vec<String>) -> (merged:
        ToolFootprint)
        requires
            self.wf(),
        ensures
            merged.items@ == merged_footprint(
                *self,
                session_id@,
                turn_ids@,
                turn_ids@.len() as int,
            ),
    {
        let rows = &self.footprints;
        let mut items: Vec<(String, String)> = Vec::new();
        let mut i: usize = 0;
        while i < turn_ids.len()
            invariant
                i <= turn_ids@.len(),
                self.wf(),
                rows@ == self.footprints@,
                items@ == merged_footprint(*self, session_id@, turn_ids@, i as int),
            decreases turn_ids@.len() - i,
        {
            let turn_id = turn_ids[i].as_str();
            if let Some(at) = find_turn(&self.turns, turn_id) {
                if same_text(self.turns[at].session_id.as_str(), session_id) {
                    let ghost start = items@;
                    let mut k: usize = 0;
                    while k < rows.len()
                        invariant
                            k <= rows@.len(),
                            items@ == collected(start, rows@, turn_id@, k as int),
                        decreases rows@.len() - k,
                    {
                        if same_text(rows[k].turn_id.as_str(), turn_id) && !touch_exists(
                            &items,
                            rows[k].kind.as_str(),
                            rows[k].item.as_str(),
                        ) {
                            items.push((rows[k].kind.clone(), rows[k].item.clone()));
                        }
                        k += 1;
                    }
                }
            }
            i += 1;
        }
        ToolFootprint { items }
    }
}

/// Adding what tools touched a second time adds nothing.
pub proof fn merging_footprints_twice_adds_nothing(
    rows: Seq<FootprintRow>,
    turn_id: String,
    delta: Seq<(String, String)>,
)
    ensures
        ({
            let once = footprints_merged(rows, turn_id, delta, delta.len() as int);
            footprints_merged(once, turn_id, delta, delta.len() as int) == once
        }),
{
    let once = footprints_merged(rows, turn_id, delta, delta.len() as int);
    lemma_merged_holds(rows, turn_id, delta, delta.len() as int);
    lemma_merged_again(once, turn_id, delta, delta.len() as int);
}

proof fn lemma_merged_holds(
    rows: Seq<FootprintRow>,
    turn_id: String,
    delta: Seq<(String, String)>,
    n: int,
)
    requires
        0 <= n <= delta.len(),
    ensures
        forall|k: int|
            0 <= k < n ==> has_footprint(
                footprints_merged(rows, turn_id, delta, n),
                turn_id@,
                (#[trigger] delta[k]).0@,
                delta[k].1@,
            ),
    decreases n,
{
    if n > 0 {
        lemma_merged_holds(rows, turn_id, delta, n - 1);
        let before = footprints_merged(rows, turn_id, delta, n - 1);
        let after = footprints_merged(rows, turn_id, delta, n);
        assert forall|k: int| 0 <= k < n implies has_footprint(
            after,
            turn_id@,
            (#[trigger] delta[k]).0@,
            delta[k].1@,
        ) by {
            let (kind, item) = delta[k];
            if has_footprint(before, turn_id@, kind@, item@) {
                let i = choose|i: int|
                    0 <= i < before.len() && is_footprint(
                        #[trigger] before[i],
                        turn_id@,
                        kind@,
                        item@,
                    );
                assert(after[i] == before[i]);
            } else {
                assert(k == n - 1);
                assert(is_footprint(after[before.len() as int], turn_id@, kind@, item@));
            }
        }
    }
}

proof fn lemma_merged_again(
    rows: Seq<FootprintRow>,
    turn_id: String,
    delta: Seq<(String, String)>,
    n: int,
)
    requires
        0 <= n <= delta.len(),
        forall|k: int|
            0 <= k < delta.len() ==> has_footprint(
                rows,
                turn_id@,
                (#[trigger] delta[k]).0@,
                delta[k].1@,
            ),
    ensures
        footprints_merged(rows, turn_id, delta, n) == rows,
    decreases n,
{
    if n > 0 {
        lemma_merged_again(rows, turn_id, delta, n - 1);
        assert(has_footprint(rows, turn_id@, delta[n - 1].0@, delta[n - 1].1@));
    }
}

// ---------------------------------------------------------------------------
// Laws
// ---------------------------------------------------------------------------

/// An event is added, as it is, exactly where its text has no more than 64 MiB
/// and its content no more than 8 MiB, its turn runs at that revision and the
/// stretch it belongs to is there and was not replaced. It stands behind all
/// others, and nothing else changes.
pub proof fn an_event_is_added_as_it_is(
    before: ConversationDb,
    after: ConversationDb,
    turn_id: Seq<char>,
    revision: i64,
    index: i64,
    event: NewEvent,
    now: String,
    done: Result<(), DbError>,
    i: int,
    s: int,
)
    requires
        before.wf(),
        is_appended(before, after, turn_id, revision, index, event, now, done),
        0 <= i < before.turns@.len(),
        before.turns@[i].turn_id@ == turn_id,
        0 <= s < before.segments@.len(),
        before.segments@[s].turn_id@ == turn_id && before.segments@[s].revision == revision
            && before.segments@[s].segment_index == index,
    ensures
        ({
            let long_text = event.text_payload matches Some(text) && vstd::utf8::encode_utf8(
                text@,
            ).len() > 64 * 1024 * 1024;
            let long_blob = event.blob_payload matches Some(blob) && blob@.len() > 8 * 1024 * 1024;
            let open = before.turns@[i].status is Running && before.turns@[i].revision == revision
                && before.segments@[s].status !is Superseded;
            let row = after.events@.last();
            &&& done is Ok <==> !long_text && !long_blob && open
            &&& done is Err ==> after == before
            &&& long_text ==> done == Err::<(), DbError>(DbError::TextEventTooLong)
            &&& !long_text && long_blob ==> done == Err::<(), DbError>(DbError::BlobEventTooLong)
            &&& !long_text && !long_blob && !open ==> done == Err::<(), DbError>(
                DbError::JournalInactive,
            )
            &&& done is Ok ==> {
                &&& after.events@.len() == before.events@.len() + 1
                &&& after.events@.drop_last() == before.events@
                &&& row.turn_id@ == turn_id && row.revision == revision && row.segment_index
                    == index
                &&& row.kind == event.kind && row.call_id == event.call_id && row.name
                    == event.name
                &&& row.text_payload == event.text_payload && row.blob_payload
                    == event.blob_payload
                &&& row.ok == event.ok && row.created_at == now
                &&& after.segments == before.segments && after.turns == before.turns
            }
        }),
{
    super::lemma_turn_at(before.turns@, turn_id, i);
    lemma_segment_is(before.segments@, turn_id, revision, index, before.segments@.len() as int, s);
    if done is Ok {
        assert(after.events@.drop_last() =~= before.events@);
    }
}

proof fn lemma_segment_is(
    segments: Seq<SegmentRow>,
    turn_id: Seq<char>,
    revision: i64,
    index: i64,
    n: int,
    s: int,
)
    requires
        super::segments_ordered(segments),
        0 <= n <= segments.len(),
        0 <= s < segments.len(),
        segments[s].turn_id@ == turn_id && segments[s].revision == revision
            && segments[s].segment_index == index,
    ensures
        segment_at(segments, turn_id, revision, index, n) == if s < n {
            s
        } else {
            -1
        },
    decreases n,
{
    if n > 0 {
        lemma_segment_is(segments, turn_id, revision, index, n - 1, s);
        if s < n - 1 {
            assert(segments[s].turn_id@ == segments[n - 1].turn_id@ && segments[s].revision
                == segments[n - 1].revision ==> segments[s].segment_index < segments[n
                - 1].segment_index);
        } else if n - 1 < s {
            assert(segments[n - 1].turn_id@ == segments[s].turn_id@ && segments[n - 1].revision
                == segments[s].revision ==> segments[n - 1].segment_index
                < segments[s].segment_index);
        }
    }
}

/// Without its stretch, or without its turn, no event is added.
pub proof fn no_stretch_no_event(
    before: ConversationDb,
    after: ConversationDb,
    turn_id: Seq<char>,
    revision: i64,
    index: i64,
    event: NewEvent,
    now: String,
    done: Result<(), DbError>,
)
    requires
        is_appended(before, after, turn_id, revision, index, event, now, done),
        (forall|k: int|
            0 <= k < before.segments@.len() ==> !((#[trigger] before.segments@[k]).turn_id@
                == turn_id && before.segments@[k].revision == revision
                && before.segments@[k].segment_index == index)) || (forall|k: int|
            0 <= k < before.turns@.len() ==> (#[trigger] before.turns@[k]).turn_id@ != turn_id),
    ensures
        done is Err && after == before,
{
    lemma_segment_none(before.segments@, turn_id, revision, index, before.segments@.len() as int);
    let k = before.turn_at(turn_id);
    if k >= 0 {
        assert(super::is_turn_at(before.turns@, turn_id, k));
        let turn = before.turns@[k];
    }
}

proof fn lemma_segment_none(
    segments: Seq<SegmentRow>,
    turn_id: Seq<char>,
    revision: i64,
    index: i64,
    n: int,
)
    requires
        0 <= n <= segments.len(),
    ensures
        (forall|k: int|
            0 <= k < n ==> !((#[trigger] segments[k]).turn_id@ == turn_id && segments[k].revision
                == revision && segments[k].segment_index == index)) ==> segment_at(
            segments,
            turn_id,
            revision,
            index,
            n,
        ) < 0,
    decreases n,
{
    if n > 0 {
        lemma_segment_none(segments, turn_id, revision, index, n - 1);
        let here = segments[n - 1];
    }
}

/// A stretch is replaced exactly where it is running. It is closed as one that
/// was replaced, an event says so behind all others, and all other stretches
/// stay.
pub proof fn only_a_running_stretch_is_replaced(
    before: ConversationDb,
    after: ConversationDb,
    turn_id: String,
    revision: i64,
    index: i64,
    now: String,
    done: Result<(), DbError>,
    s: int,
)
    requires
        before.wf(),
        is_superseded(before, after, turn_id, revision, index, now, done),
        0 <= s < before.segments@.len(),
        before.segments@[s].turn_id@ == turn_id@ && before.segments@[s].revision == revision
            && before.segments@[s].segment_index == index,
    ensures
        done is Ok <==> before.segments@[s].status is Running,
        done is Err ==> after == before,
        done is Ok ==> {
            let event = after.events@.last();
            &&& after.segments@.len() == before.segments@.len()
            &&& after.segments@[s] == (SegmentRow {
                status: after.segments@[s].status,
                finished_at: Some(now),
                ..before.segments@[s]
            })
            &&& after.segments@[s].status is Superseded
            &&& forall|k: int|
                0 <= k < before.segments@.len() && k != s ==> after.segments@[k]
                    == #[trigger] before.segments@[k]
            &&& after.events@.len() == before.events@.len() + 1
            &&& after.events@.drop_last() == before.events@
            &&& event.kind@ == "generation_superseded"@ && event.turn_id == turn_id
                && event.revision == revision && event.segment_index == index && event.created_at
                == now
            &&& after.turns == before.turns && after.prompts == before.prompts
        },
{
    lemma_segment_is(
        before.segments@,
        turn_id@,
        revision,
        index,
        before.segments@.len() as int,
        s,
    );
}

/// Reports of tools are added behind all others, each under its turn and in
/// their order, where the turn is there.
pub proof fn reports_are_added_in_order(
    before: ConversationDb,
    after: ConversationDb,
    turn_id: String,
    reports: Seq<String>,
    done: Result<(), DbError>,
    k: int,
)
    requires
        are_reported(before, after, turn_id, reports, done),
        0 <= k < reports.len(),
    ensures
        done is Ok <==> exists|i: int|
            0 <= i < before.turns@.len() && (#[trigger] before.turns@[i]).turn_id@ == turn_id@,
        done is Err ==> after == before,
        done is Ok ==> {
            let n = before.tool_reports@.len() as int;
            &&& after.tool_reports@.len() == n + reports.len()
            &&& after.tool_reports@.take(n) == before.tool_reports@
            &&& after.tool_reports@[n + k].turn_id == turn_id && after.tool_reports@[n + k].report
                == reports[k]
            &&& after.turns == before.turns
        },
{
    turns_are_found_where_they_are(before, turn_id@);
    if done is Ok {
        assert(after.tool_reports@.take(before.tool_reports@.len() as int)
            =~= before.tool_reports@);
    }
}

/// A turn is found exactly where it is there.
pub open spec fn is_known_alike(db: ConversationDb, turn_id: Seq<char>) -> bool {
    db.turn_at(turn_id) >= 0 <==> exists|i: int|
        0 <= i < db.turns@.len() && (#[trigger] db.turns@[i]).turn_id@ == turn_id
}

/// That is so in every database.
pub proof fn turns_are_found_where_they_are(db: ConversationDb, turn_id: Seq<char>)
    ensures
        is_known_alike(db, turn_id),
{
    if exists|i: int| 0 <= i < db.turns@.len() && (#[trigger] db.turns@[i]).turn_id@ == turn_id {
        let i = choose|i: int|
            0 <= i < db.turns@.len() && (#[trigger] db.turns@[i]).turn_id@ == turn_id;
        assert(super::is_turn_at(db.turns@, turn_id, i));
    }
    let k = db.turn_at(turn_id);
    if k >= 0 {
        assert(super::is_turn_at(db.turns@, turn_id, k));
        let turn = db.turns@[k];
    }
}

/// A question is numbered above all others of its turn, one above the highest,
/// and 0 where it is the first. It stands behind all others.
pub proof fn questions_are_numbered_in_order(
    before: ConversationDb,
    after: ConversationDb,
    turn_id: String,
    payload: String,
    q: int,
)
    requires
        is_asked(before, after, turn_id, payload, Ok(())),
    ensures
        ({
            let row = after.questions@.last();
            let asked = before.questions@;
            &&& after.questions@.len() == asked.len() + 1
            &&& after.questions@.drop_last() == asked
            &&& row.turn_id == turn_id && row.payload == payload
            &&& 0 <= q < asked.len() && asked[q].turn_id@ == turn_id@ ==> row.exchange_index
                > asked[q].exchange_index
            &&& 0 <= q < asked.len() && asked[q].turn_id@ == turn_id@ && (forall|k: int|
                0 <= k < asked.len() && (#[trigger] asked[k]).turn_id@ == turn_id@
                    ==> asked[k].exchange_index <= asked[q].exchange_index) ==> row.exchange_index
                == asked[q].exchange_index + 1
            &&& (forall|k: int|
                0 <= k < asked.len() ==> (#[trigger] asked[k]).turn_id@ != turn_id@)
                ==> row.exchange_index == 0
            &&& after.turns == before.turns
        }),
{
    let asked = before.questions@;
    assert(after.questions@.drop_last() =~= asked);
    lemma_exchange(asked, turn_id@, asked.len() as int, q);
}

proof fn lemma_exchange(questions: Seq<QuestionRow>, turn_id: Seq<char>, n: int, q: int)
    requires
        0 <= n <= questions.len(),
    ensures
        ({
            let last = last_exchange(questions, turn_id, n);
            &&& i64::MIN <= last <= i64::MAX
            &&& 0 <= q < n && questions[q].turn_id@ == turn_id ==> last
                >= questions[q].exchange_index
            &&& has_question(questions, turn_id, n) ==> exists|k: int|
                0 <= k < n && (#[trigger] questions[k]).turn_id@ == turn_id
                    && questions[k].exchange_index == last
            &&& !has_question(questions, turn_id, n) ==> last == -1
        }),
    decreases n,
{
    if n > 0 {
        lemma_exchange(questions, turn_id, n - 1, q);
        let row = questions[n - 1];
        if has_question(questions, turn_id, n - 1) {
            let k = choose|k: int|
                0 <= k < n - 1 && (#[trigger] questions[k]).turn_id@ == turn_id
                    && questions[k].exchange_index == last_exchange(questions, turn_id, n - 1);
            let mate = questions[k];
            assert(questions[k].turn_id@ == turn_id);
        } else {
            if 0 <= q < n - 1 && questions[q].turn_id@ == turn_id {
                assert(has_question(questions, turn_id, n - 1));
            }
            if has_question(questions, turn_id, n) {
                let k = choose|k: int| 0 <= k < n && (#[trigger] questions[k]).turn_id@ == turn_id;
                assert(k == n - 1);
            }
        }
    }
}

/// Adding what tools touched to a turn leaves every thing in it, adds nothing
/// that was not touched and nothing that is there, and keeps what was there in
/// place.
pub proof fn everything_touched_is_added(
    before: ConversationDb,
    after: ConversationDb,
    turn_id: Seq<char>,
    items: Seq<(String, String)>,
    i: int,
    k: int,
    a: int,
)
    requires
        before.wf(),
        is_merged(before, after, turn_id, items),
        0 <= i < before.turns@.len(),
        before.turns@[i].turn_id@ == turn_id,
    ensures
        after.footprints@.len() >= before.footprints@.len(),
        after.footprints@.take(before.footprints@.len() as int) == before.footprints@,
        0 <= k < items.len() ==> exists|r: int|
            0 <= r < after.footprints@.len() && (#[trigger] after.footprints@[r]).turn_id@
                == turn_id && after.footprints@[r].kind@ == items[k].0@ && after.footprints@[r].item@
                == items[k].1@,
        before.footprints@.len() <= a < after.footprints@.len() ==> {
            let row = after.footprints@[a];
            &&& row.turn_id@ == turn_id
            &&& exists|m: int|
                0 <= m < items.len() && (#[trigger] items[m]).0@ == row.kind@ && items[m].1@
                    == row.item@
            &&& forall|r: int|
                0 <= r < a ==> !((#[trigger] after.footprints@[r]).turn_id@ == turn_id
                    && after.footprints@[r].kind@ == row.kind@ && after.footprints@[r].item@
                    == row.item@)
        },
{
    super::lemma_turn_at(before.turns@, turn_id, i);
    lemma_footprints(
        before.footprints@,
        before.turns@[i].turn_id,
        items,
        items.len() as int,
        k,
        a,
    );
}

proof fn lemma_footprints(
    rows: Seq<FootprintRow>,
    turn_id: String,
    items: Seq<(String, String)>,
    n: int,
    k: int,
    a: int,
)
    requires
        0 <= n <= items.len(),
    ensures
        ({
            let after = footprints_merged(rows, turn_id, items, n);
            &&& after.len() >= rows.len()
            &&& after.take(rows.len() as int) == rows
            &&& 0 <= k < n ==> has_footprint(after, turn_id@, items[k].0@, items[k].1@)
            &&& rows.len() <= a < after.len() ==> {
                let row = after[a];
                &&& row.turn_id@ == turn_id@
                &&& exists|m: int|
                    0 <= m < n && (#[trigger] items[m]).0@ == row.kind@ && items[m].1@ == row.item@
                &&& forall|r: int|
                    0 <= r < a ==> !is_footprint(
                        #[trigger] after[r],
                        turn_id@,
                        row.kind@,
                        row.item@,
                    )
            }
        }),
    decreases n,
{
    if n > 0 {
        lemma_footprints(rows, turn_id, items, n - 1, k, a);
        let before = footprints_merged(rows, turn_id, items, n - 1);
        let after = footprints_merged(rows, turn_id, items, n);
        let (kind, item) = items[n - 1];
        if has_footprint(before, turn_id@, kind@, item@) {
        } else {
            assert(after[before.len() as int] == FootprintRow { turn_id, kind, item });
            assert(is_footprint(after[before.len() as int], turn_id@, kind@, item@));
            if 0 <= k < n - 1 {
                let r = choose|r: int|
                    0 <= r < before.len() && is_footprint(
                        #[trigger] before[r],
                        turn_id@,
                        items[k].0@,
                        items[k].1@,
                    );
                assert(is_footprint(after[r], turn_id@, items[k].0@, items[k].1@));
            }
            if rows.len() <= a < before.len() {
                assert(after[a] == before[a]);
                assert forall|r: int| 0 <= r < a implies !is_footprint(
                    #[trigger] after[r],
                    turn_id@,
                    after[a].kind@,
                    after[a].item@,
                ) by {
                    assert(after[r] == before[r]);
                }
            }
            if a == before.len() {
                assert(items[n - 1].0@ == after[a].kind@);
                assert forall|r: int| 0 <= r < a implies !is_footprint(
                    #[trigger] after[r],
                    turn_id@,
                    after[a].kind@,
                    after[a].item@,
                ) by {
                    assert(after[r] == before[r]);
                }
            }
            assert(after.take(rows.len() as int) =~= rows);
        }
    } else {
        assert(rows.take(rows.len() as int) =~= rows);
    }
}

/// What the tools of some turns touched is everything that any of them touched,
/// as far as the turns are of the session, and each thing once.
pub proof fn merged_footprints_hold_everything_once(
    db: &ConversationDb,
    session: &str,
    turn_ids: &Vec<String>,
    merged: ToolFootprint,
    t: int,
    i: int,
    f: int,
    a: int,
    b: int,
)
    requires
        db.wf(),
        call_ensures(ConversationDb::load_merged_footprint, (db, session, turn_ids), merged),
        0 <= t < turn_ids@.len(),
        0 <= i < db.turns@.len(),
        0 <= f < db.footprints@.len(),
    ensures
        db.turns@[i].turn_id@ == turn_ids@[t]@ && db.turns@[i].session_id@ == session@
            && db.footprints@[f].turn_id@ == turn_ids@[t]@ ==> exists|k: int|
            0 <= k < merged.items@.len() && (#[trigger] merged.items@[k]).0@
                == db.footprints@[f].kind@ && merged.items@[k].1@ == db.footprints@[f].item@,
        0 <= a < b < merged.items@.len() ==> !(merged.items@[a].0@ == merged.items@[b].0@
            && merged.items@[a].1@ == merged.items@[b].1@),
        0 <= a < merged.items@.len() ==> exists|k: int, u: int|
            0 <= k < db.footprints@.len() && 0 <= u < turn_ids@.len() && (
            #[trigger] db.footprints@[k]).turn_id@ == (#[trigger] turn_ids@[u])@
                && db.footprints@[k].kind@ == merged.items@[a].0@ && db.footprints@[k].item@
                == merged.items@[a].1@,
{
    lemma_merged_footprint(*db, session@, turn_ids@, turn_ids@.len() as int, t, i, f, a, b);
    if db.turns@[i].turn_id@ == turn_ids@[t]@ && db.turns@[i].session_id@ == session@
        && db.footprints@[f].turn_id@ == turn_ids@[t]@ {
        let k = choose|k: int|
            0 <= k < merged.items@.len() && is_touch(
                #[trigger] merged.items@[k],
                db.footprints@[f].kind@,
                db.footprints@[f].item@,
            );
        assert(merged.items@[k].0@ == db.footprints@[f].kind@);
    }
}

/// Whether an item comes from a footprint of one of the first `n` turns.
spec fn comes_from(
    db: ConversationDb,
    turn_ids: Seq<String>,
    n: int,
    entry: (String, String),
) -> bool {
    exists|k: int, u: int|
        0 <= k < db.footprints@.len() && 0 <= u < n && (#[trigger] db.footprints@[k]).turn_id@ == (
        #[trigger] turn_ids[u])@ && db.footprints@[k].kind@ == entry.0@ && db.footprints@[k].item@
            == entry.1@
}

proof fn lemma_collected(
    items: Seq<(String, String)>,
    rows: Seq<FootprintRow>,
    turn_id: Seq<char>,
    n: int,
    f: int,
    a: int,
    b: int,
)
    requires
        0 <= n <= rows.len(),
        0 <= a < b < items.len() ==> !is_touch(items[a], items[b].0@, items[b].1@),
    ensures
        ({
            let after = collected(items, rows, turn_id, n);
            &&& after.len() >= items.len()
            &&& after.take(items.len() as int) == items
            &&& 0 <= f < n && rows[f].turn_id@ == turn_id ==> touches(
                after,
                rows[f].kind@,
                rows[f].item@,
            )
            &&& 0 <= a < b < after.len() ==> !is_touch(after[a], after[b].0@, after[b].1@)
            &&& items.len() <= a < after.len() ==> exists|k: int|
                0 <= k < n && (#[trigger] rows[k]).turn_id@ == turn_id && rows[k].kind@
                    == after[a].0@ && rows[k].item@ == after[a].1@
        }),
    decreases n,
{
    if n > 0 {
        lemma_collected(items, rows, turn_id, n - 1, f, a, b);
        let before = collected(items, rows, turn_id, n - 1);
        let after = collected(items, rows, turn_id, n);
        let row = rows[n - 1];
        if row.turn_id@ == turn_id && !touches(before, row.kind@, row.item@) {
            let m = before.len() as int;
            assert(after == before.push((row.kind, row.item)));
            assert(is_touch(after[m], row.kind@, row.item@));
            assert(after.take(items.len() as int) =~= items);
            if 0 <= f < n - 1 && rows[f].turn_id@ == turn_id {
                let k = choose|k: int|
                    0 <= k < before.len() && is_touch(
                        #[trigger] before[k],
                        rows[f].kind@,
                        rows[f].item@,
                    );
                assert(is_touch(after[k], rows[f].kind@, rows[f].item@));
            }
            if 0 <= a < b < after.len() {
                assert(after[a] == before[a]);
                if b < m {
                    assert(after[b] == before[b]);
                }
            }
            if items.len() <= a < m {
                assert(after[a] == before[a]);
            }
        } else {
            if f == n - 1 && row.turn_id@ == turn_id {
                assert(touches(after, row.kind@, row.item@));
            }
        }
    } else {
        assert(items.take(items.len() as int) =~= items);
    }
}

proof fn lemma_merged_footprint(
    db: ConversationDb,
    session: Seq<char>,
    turn_ids: Seq<String>,
    n: int,
    t: int,
    i: int,
    f: int,
    a: int,
    b: int,
)
    requires
        db.wf(),
        0 <= n <= turn_ids.len(),
        0 <= t < turn_ids.len(),
        0 <= i < db.turns@.len(),
        0 <= f < db.footprints@.len(),
    ensures
        ({
            let merged = merged_footprint(db, session, turn_ids, n);
            &&& t < n && db.turns@[i].turn_id@ == turn_ids[t]@ && db.turns@[i].session_id@
                == session && db.footprints@[f].turn_id@ == turn_ids[t]@ ==> touches(
                merged,
                db.footprints@[f].kind@,
                db.footprints@[f].item@,
            )
            &&& 0 <= a < b < merged.len() ==> !is_touch(merged[a], merged[b].0@, merged[b].1@)
            &&& 0 <= a < merged.len() ==> comes_from(db, turn_ids, n, merged[a])
        }),
    decreases n,
{
    if n > 0 {
        lemma_merged_footprint(db, session, turn_ids, n - 1, t, i, f, a, b);
        let before = merged_footprint(db, session, turn_ids, n - 1);
        let merged = merged_footprint(db, session, turn_ids, n);
        let id = turn_ids[n - 1]@;
        let rows = db.footprints@;
        if db.turns@[i].turn_id@ == id {
            super::lemma_turn_at(db.turns@, id, i);
        }
        let at = db.turn_at(id);
        if at >= 0 && db.turns@[at].session_id@ == session {
            lemma_collected(before, rows, id, rows.len() as int, f, a, b);
            if t < n - 1 && touches(before, rows[f].kind@, rows[f].item@) {
                let k = choose|k: int|
                    0 <= k < before.len() && is_touch(
                        #[trigger] before[k],
                        rows[f].kind@,
                        rows[f].item@,
                    );
                assert(merged.take(before.len() as int)[k] == merged[k]);
                assert(is_touch(merged[k], rows[f].kind@, rows[f].item@));
            }
            if before.len() <= a < merged.len() {
                let k = choose|k: int|
                    0 <= k < rows.len() && (#[trigger] rows[k]).turn_id@ == id && rows[k].kind@
                        == merged[a].0@ && rows[k].item@ == merged[a].1@;
                assert(rows[k].turn_id@ == turn_ids[n - 1]@);
            }
            if 0 <= a < before.len() {
                assert(merged.take(before.len() as int)[a] == merged[a]);
            }
        }
        if 0 <= a < before.len() {
            let (k, u) = choose|k: int, u: int|
                0 <= k < rows.len() && 0 <= u < n - 1 && (#[trigger] rows[k]).turn_id@ == (
                #[trigger] turn_ids[u])@ && rows[k].kind@ == before[a].0@ && rows[k].item@
                    == before[a].1@;
            assert(rows[k].turn_id@ == turn_ids[u]@);
        }
    }
}

/// Writing the tail or the flow of a turn changes that alone.
pub proof fn only_that_column_is_written(
    before: ConversationDb,
    after: ConversationDb,
    turn_id: Seq<char>,
    change: spec_fn(TurnRow) -> TurnRow,
    i: int,
)
    requires
        before.wf(),
        turn_changed(before, after, turn_id, change),
        0 <= i < before.turns@.len(),
        before.turns@[i].turn_id@ == turn_id,
    ensures
        after.turns@.len() == before.turns@.len(),
        after.turns@[i] == change(before.turns@[i]),
        forall|j: int|
            0 <= j < before.turns@.len() && j != i ==> after.turns@[j] == #[trigger] before.turns@[j],
        after.segments == before.segments && after.events == before.events && after.prompts
            == before.prompts,
{
    super::lemma_turn_at(before.turns@, turn_id, i);
}

/// The tail of a turn is the text that was written, and every other column of
/// it stays.
pub proof fn the_tail_is_what_was_written(
    before: ConversationDb,
    after: ConversationDb,
    turn_id: Seq<char>,
    messages: String,
    i: int,
)
    requires
        before.wf(),
        has_tail(before, after, turn_id, messages),
        0 <= i < before.turns@.len(),
        before.turns@[i].turn_id@ == turn_id,
    ensures
        after.turns@ == before.turns@.update(
            i,
            TurnRow { context_messages: messages, ..before.turns@[i] },
        ),
{
    super::lemma_turn_at(before.turns@, turn_id, i);
}

/// The flow of a turn's tools is the text that was written, and every other
/// column of it stays.
pub proof fn the_flow_is_what_was_written(
    before: ConversationDb,
    after: ConversationDb,
    turn_id: Seq<char>,
    flow: String,
    i: int,
)
    requires
        before.wf(),
        has_flow(before, after, turn_id, flow),
        0 <= i < before.turns@.len(),
        before.turns@[i].turn_id@ == turn_id,
    ensures
        after.turns@ == before.turns@.update(
            i,
            TurnRow { tool_flow: Some(flow), ..before.turns@[i] },
        ),
{
    super::lemma_turn_at(before.turns@, turn_id, i);
}

/// Writing to a turn that is not there changes nothing.
pub proof fn nothing_is_written_without_the_turn(
    before: ConversationDb,
    after: ConversationDb,
    turn_id: Seq<char>,
    change: spec_fn(TurnRow) -> TurnRow,
)
    requires
        turn_changed(before, after, turn_id, change),
        forall|k: int|
            0 <= k < before.turns@.len() ==> (#[trigger] before.turns@[k]).turn_id@ != turn_id,
    ensures
        after.turns@ == before.turns@,
{
    if before.turn_at(turn_id) >= 0 {
        let k = before.turn_at(turn_id);
        assert(super::is_turn_at(before.turns@, turn_id, k));
    }
}

} // verus!
