//! Deleting turns and sessions, with all that belongs to them.

use vstd::prelude::*;

use crate::text::{self, is_listed, same_text};

use super::rows::{
    AssetRow, AttachmentRow, BackupRow, CheckpointRow, DbError, EventRow, FootprintRow, LoadedItemRow,
    PromptRow, QuestionRow, ReplayRow, SegmentRow, SessionKind, SessionRow, Stamp, ToolReportRow, TurnRow,
    TurnStatus,
};
use super::session_state::{HistoryRow, ImportRow, SessionTables, ValueRow};
use super::skill_catalog::SkillCatalogRow;
use super::cache_breaks::{self, is_under, CacheBreakRow};
use super::held_reports::HeldJobReport;
use crate::table::{self, delete_where};
use super::turns;
use super::{find_turn, ConversationDb};

verus! {

/// The tables after the turns `ids` were deleted with what they hold.
pub open spec fn turns_deleted(
    before: ConversationDb,
    ids: Seq<String>,
    after: ConversationDb,
) -> bool {
    &&& after.turns@ == table::without(
        before.turns@,
        |row: TurnRow| text::listed(ids, row.turn_id@),
    )
    &&& after.segments@ == table::without(
        before.segments@,
        |row: SegmentRow| text::listed(ids, row.turn_id@),
    )
    &&& after.events@ == table::without(
        before.events@,
        |row: EventRow| text::listed(ids, row.turn_id@),
    )
    &&& after.questions@ == table::without(
        before.questions@,
        |row: QuestionRow| text::listed(ids, row.turn_id@),
    )
    &&& after.images@ == table::without(
        before.images@,
        |row: AssetRow| text::listed(ids, row.turn_id@),
    )
    &&& after.artifacts@ == table::without(
        before.artifacts@,
        |row: AssetRow| text::listed(ids, row.turn_id@),
    )
    &&& after.tool_reports@ == table::without(
        before.tool_reports@,
        |row: ToolReportRow| text::listed(ids, row.turn_id@),
    )
    &&& after.footprints@ == table::without(
        before.footprints@,
        |row: FootprintRow| text::listed(ids, row.turn_id@),
    )
    &&& after.replays@ == table::without(
        before.replays@,
        |row: ReplayRow| text::listed(ids, row.turn_id@),
    )
    &&& after.checkpoints@ == table::without(
        before.checkpoints@,
        |row: CheckpointRow| text::listed(ids, row.turn_id@),
    )
    &&& after.backups@ == table::without(
        before.backups@,
        |row: BackupRow| text::listed(ids, row.turn_id@),
    )
    &&& after.question_backups@ == table::without(
        before.question_backups@,
        |row: QuestionRow| text::listed(ids, row.turn_id@),
    )
    &&& after.image_backups@ == table::without(
        before.image_backups@,
        |row: AssetRow| text::listed(ids, row.turn_id@),
    )
    &&& after.artifact_backups@ == table::without(
        before.artifact_backups@,
        |row: AssetRow| text::listed(ids, row.turn_id@),
    )
    &&& after == ConversationDb {
        turns: after.turns,
        segments: after.segments,
        events: after.events,
        questions: after.questions,
        images: after.images,
        artifacts: after.artifacts,
        tool_reports: after.tool_reports,
        footprints: after.footprints,
        replays: after.replays,
        checkpoints: after.checkpoints,
        backups: after.backups,
        question_backups: after.question_backups,
        image_backups: after.image_backups,
        artifact_backups: after.artifact_backups,
        ..before
    }
}

/// Deleting turns keeps the others in order.
proof fn lemma_turns_without(turns: Seq<TurnRow>, chosen: spec_fn(TurnRow) -> bool)
    requires
        super::turns_ordered(turns),
    ensures
        super::turns_ordered(table::without(turns, chosen)),
{
    let place = table::lemma_without_embeds(turns, chosen);
    let kept = table::without(turns, chosen);
    assert forall|i: int, j: int| 0 <= i < j < kept.len() implies #[trigger] kept[i].turn_id@
        != #[trigger] kept[j].turn_id@ by {
        assert(place(i) < place(j));
        assert(turns[place(i)].turn_id@ != turns[place(j)].turn_id@);
    }
    assert forall|i: int, j: int|
        0 <= i < j < kept.len() && #[trigger] kept[i].session_id@ == #[trigger] kept[j].session_id@
        implies kept[i].seq < kept[j].seq by {
        assert(place(i) < place(j));
        assert(turns[place(i)].session_id@ == turns[place(j)].session_id@);
    }
}

/// Deleting messages keeps the others in order.
proof fn lemma_prompts_without(prompts: Seq<PromptRow>, chosen: spec_fn(PromptRow) -> bool)
    requires
        super::prompts_ordered(prompts),
    ensures
        super::prompts_ordered(table::without(prompts, chosen)),
{
    let place = table::lemma_without_embeds(prompts, chosen);
    let kept = table::without(prompts, chosen);
    assert forall|i: int, j: int| 0 <= i < j < kept.len() implies #[trigger] kept[i].prompt_id@
        != #[trigger] kept[j].prompt_id@ && kept[i].seq < kept[j].seq by {
        assert(place(i) < place(j));
        assert(prompts[place(i)].prompt_id@ != prompts[place(j)].prompt_id@ && prompts[place(i)].seq
            < prompts[place(j)].seq);
    }
}

/// Deletes the images or files of turns.
fn delete_assets(rows: &mut Vec<AssetRow>, ids: &Vec<String>)
    ensures
        final(rows)@ == table::without(
            old(rows)@,
            |row: AssetRow| text::listed(ids@, row.turn_id@),
        ),
{
    let test = |row: &AssetRow| -> (r: bool)
        ensures
            r == text::listed(ids@, row.turn_id@),
    { is_listed(ids, row.turn_id.as_str()) };
    delete_where(rows, test, Ghost(|row: AssetRow| text::listed(ids@, row.turn_id@)));
}

/// Deletes the questions of turns.
fn delete_questions(rows: &mut Vec<QuestionRow>, ids: &Vec<String>)
    ensures
        final(rows)@ == table::without(
            old(rows)@,
            |row: QuestionRow| text::listed(ids@, row.turn_id@),
        ),
{
    let test = |row: &QuestionRow| -> (r: bool)
        ensures
            r == text::listed(ids@, row.turn_id@),
    { is_listed(ids, row.turn_id.as_str()) };
    delete_where(rows, test, Ghost(|row: QuestionRow| text::listed(ids@, row.turn_id@)));
}

impl ConversationDb {
    /// Deletes turns with what they hold.
    pub fn delete_turns(&mut self, ids: &Vec<String>)
        requires
            old(self).wf(),
        ensures
            final(self).wf(),
            turns_deleted(*old(self), ids@, *final(self)),
    {
        proof {
            lemma_turns_without(self.turns@, |row: TurnRow| text::listed(ids@, row.turn_id@));
            super::lemma_segments_without(
                self.segments@,
                |row: SegmentRow| text::listed(ids@, row.turn_id@),
            );
        }
        let test = |row: &TurnRow| -> (r: bool)
            ensures
                r == text::listed(ids@, row.turn_id@),
        { is_listed(ids, row.turn_id.as_str()) };
        delete_where(
            &mut self.turns,
            test,
            Ghost(|row: TurnRow| text::listed(ids@, row.turn_id@)),
        );
        let test = |row: &SegmentRow| -> (r: bool)
            ensures
                r == text::listed(ids@, row.turn_id@),
        { is_listed(ids, row.turn_id.as_str()) };
        delete_where(
            &mut self.segments,
            test,
            Ghost(|row: SegmentRow| text::listed(ids@, row.turn_id@)),
        );
        let test = |row: &EventRow| -> (r: bool)
            ensures
                r == text::listed(ids@, row.turn_id@),
        { is_listed(ids, row.turn_id.as_str()) };
        delete_where(
            &mut self.events,
            test,
            Ghost(|row: EventRow| text::listed(ids@, row.turn_id@)),
        );
        let test = |row: &ToolReportRow| -> (r: bool)
            ensures
                r == text::listed(ids@, row.turn_id@),
        { is_listed(ids, row.turn_id.as_str()) };
        delete_where(
            &mut self.tool_reports,
            test,
            Ghost(|row: ToolReportRow| text::listed(ids@, row.turn_id@)),
        );
        let test = |row: &FootprintRow| -> (r: bool)
            ensures
                r == text::listed(ids@, row.turn_id@),
        { is_listed(ids, row.turn_id.as_str()) };
        delete_where(
            &mut self.footprints,
            test,
            Ghost(|row: FootprintRow| text::listed(ids@, row.turn_id@)),
        );
        let test = |row: &ReplayRow| -> (r: bool)
            ensures
                r == text::listed(ids@, row.turn_id@),
        { is_listed(ids, row.turn_id.as_str()) };
        delete_where(
            &mut self.replays,
            test,
            Ghost(|row: ReplayRow| text::listed(ids@, row.turn_id@)),
        );
        let test = |row: &CheckpointRow| -> (r: bool)
            ensures
                r == text::listed(ids@, row.turn_id@),
        { is_listed(ids, row.turn_id.as_str()) };
        delete_where(
            &mut self.checkpoints,
            test,
            Ghost(|row: CheckpointRow| text::listed(ids@, row.turn_id@)),
        );
        let test = |row: &BackupRow| -> (r: bool)
            ensures
                r == text::listed(ids@, row.turn_id@),
        { is_listed(ids, row.turn_id.as_str()) };
        delete_where(
            &mut self.backups,
            test,
            Ghost(|row: BackupRow| text::listed(ids@, row.turn_id@)),
        );
        delete_questions(&mut self.questions, ids);
        delete_questions(&mut self.question_backups, ids);
        delete_assets(&mut self.images, ids);
        delete_assets(&mut self.image_backups, ids);
        delete_assets(&mut self.artifacts, ids);
        delete_assets(&mut self.artifact_backups, ids);
    }
}

/// Whether a turn of a session can be deleted: it is shown, no summary, and
/// not running.
pub open spec fn deletable(db: ConversationDb, session: Seq<char>, turn_id: Seq<char>) -> bool {
    let at = db.turn_at(turn_id);
    &&& at >= 0
    &&& db.turns@[at].session_id@ == session
    &&& !db.turns@[at].hidden
    &&& !db.turns@[at].is_summary
    &&& db.turns@[at].status != TurnStatus::Running
}

/// Whether all turns can be deleted, and none is named twice.
pub open spec fn all_deletable(db: ConversationDb, session: Seq<char>, ids: Seq<String>) -> bool {
    &&& forall|i: int| 0 <= i < ids.len() ==> deletable(db, session, (#[trigger] ids[i])@)
    &&& forall|i: int, j: int| 0 <= i < j < ids.len() ==> (#[trigger] ids[i])@ != (#[trigger] ids[j])@
}

/// Whether something loaded in a session came from one of these turns.
pub open spec fn loaded_by(row: LoadedItemRow, session: Seq<char>, ids: Seq<String>) -> bool {
    &&& row.session_id@ == session
    &&& row.item.source_turn_id matches Some(source) && text::listed(ids, source@)
}

/// What deleting turns of a session comes to.
pub open spec fn are_deleted(
    before: ConversationDb,
    after: ConversationDb,
    session: Seq<char>,
    ids: Seq<String>,
    affected: Result<usize, DbError>,
) -> bool {
    match affected {
        Ok(n) => {
            &&& all_deletable(before, session, ids)
            &&& n == ids.len()
            &&& turns_deleted(
                before,
                ids,
                ConversationDb { loaded_items: before.loaded_items, ..after },
            )
            &&& after.loaded_items@ == table::without(
                before.loaded_items@,
                |row: LoadedItemRow| loaded_by(row, session, ids),
            )
        },
        Err(e) => e == DbError::ConversationChanged && !all_deletable(before, session, ids)
            && after == before,
    }
}

impl ConversationDb {
    /// Whether a turn of a session can be deleted.
    fn can_delete(&self, session_id: &str, turn_id: &str) -> (r: bool)
        requires
            self.wf(),
        ensures
            r == deletable(*self, session_id@, turn_id@),
    {
        match find_turn(&self.turns, turn_id) {
            Some(at) => {
                let turn = &self.turns[at];
                same_text(turn.session_id.as_str(), session_id) && !turn.hidden && !turn.is_summary
                    && turn.status != TurnStatus::Running
            },
            None => false,
        }
    }

    /// Deletes turns of a session that are shown and not running, with what
    /// they loaded. Where one of them cannot be deleted, none is.
    pub fn delete_visible_turns(&mut self, session_id: &str, turn_ids: &Vec<String>) -> (affected:
        Result<usize, DbError>)
        requires
            old(self).wf(),
        ensures
            final(self).wf(),
            are_deleted(*old(self), *final(self), session_id@, turn_ids@, affected),
    {
        let mut i: usize = 0;
        while i < turn_ids.len()
            invariant
                i <= turn_ids@.len(),
                self.wf(),
                *self == *old(self),
                forall|k: int|
                    0 <= k < i ==> deletable(*self, session_id@, (#[trigger] turn_ids@[k])@),
                forall|k: int, j: int|
                    0 <= k < j < i ==> (#[trigger] turn_ids@[k])@ != (#[trigger] turn_ids@[j])@,
            decreases turn_ids@.len() - i,
        {
            if !self.can_delete(session_id, turn_ids[i].as_str()) {
                return Err(DbError::ConversationChanged);
            }
            let mut k: usize = 0;
            while k < i
                invariant
                    k <= i < turn_ids@.len(),
                    self.wf(),
                    *self == *old(self),
                    forall|n: int|
                        0 <= n < k ==> (#[trigger] turn_ids@[n])@ != turn_ids@[i as int]@,
                decreases i - k,
            {
                if same_text(turn_ids[k].as_str(), turn_ids[i].as_str()) {
                    return Err(DbError::ConversationChanged);
                }
                k += 1;
            }
            i += 1;
        }
        self.delete_turns(turn_ids);
        let ghost mid = *self;
        let test = |row: &LoadedItemRow| -> (r: bool)
            ensures
                r == loaded_by(*row, session_id@, turn_ids@),
        {
            match &row.item.source_turn_id {
                Some(source) => same_text(row.session_id.as_str(), session_id) && is_listed(
                    turn_ids,
                    source.as_str(),
                ),
                None => false,
            }
        };
        delete_where(
            &mut self.loaded_items,
            test,
            Ghost(|row: LoadedItemRow| loaded_by(row, session_id@, turn_ids@)),
        );
        assert((ConversationDb { loaded_items: old(self).loaded_items, ..*self }) == mid);
        Ok(turn_ids.len())
    }
}

// ---------------------------------------------------------------------------
// Sessions
// ---------------------------------------------------------------------------

/// The ids of the turns of sessions.
pub open spec fn turns_of(turns: Seq<TurnRow>, sessions: Seq<String>) -> Seq<String> {
    turns.filter(|row: TurnRow| text::listed(sessions, row.session_id@)).map_values(
        |row: TurnRow| row.turn_id,
    )
}

/// The tables after the sessions `ids` were deleted with what they hold.
pub open spec fn sessions_deleted(
    before: ConversationDb,
    ids: Seq<String>,
    after: ConversationDb,
) -> bool {
    &&& turns_deleted(
        before,
        turns_of(before.turns@, ids),
        ConversationDb {
            sessions: before.sessions,
            prompts: before.prompts,
            loaded_items: before.loaded_items,
            attachments: before.attachments,
            cache_breaks: before.cache_breaks,
            held_reports: before.held_reports,
            state: before.state,
            ..after
        },
    )
    &&& after.sessions@ == table::without(
        before.sessions@,
        |row: SessionRow| text::listed(ids, row.session_id@),
    )
    &&& after.prompts@ == table::without(
        before.prompts@,
        |row: PromptRow| text::listed(ids, row.session_id@),
    )
    &&& after.loaded_items@ == table::without(
        before.loaded_items@,
        |row: LoadedItemRow| text::listed(ids, row.session_id@),
    )
    &&& after.attachments@ == table::without(
        before.attachments@,
        |row: AttachmentRow| text::listed(ids, row.session_id@),
    )
    &&& after.cache_breaks@ == table::without(
        before.cache_breaks@,
        |row: CacheBreakRow| text::listed(ids, row.session_id@),
    )
    &&& after.held_reports@ == table::without(
        before.held_reports@,
        |row: HeldJobReport| text::listed(ids, row.session_id@),
    )
    &&& after.state.values@ == table::without(
        before.state.values@,
        |row: ValueRow| text::listed(ids, row.session_id@),
    )
    &&& after.state.imports@ == table::without(
        before.state.imports@,
        |row: ImportRow| text::listed(ids, row.session_id@),
    )
    &&& after.state.history@ == table::without(
        before.state.history@,
        |row: HistoryRow| text::listed(ids, row.session_id@),
    )
}

/// Whether a session is a subagent under one of some others.
pub open spec fn hangs_under(
    sessions: Seq<SessionRow>,
    roots: Seq<String>,
    session: Seq<char>,
) -> bool {
    exists|i: int|
        0 <= i < roots.len() && cache_breaks::under(
            sessions,
            (#[trigger] roots[i])@,
            session,
        )
}

/// Sessions, and the subagents under them.
pub open spec fn family(sessions: Seq<SessionRow>, roots: Seq<String>) -> Seq<String> {
    roots + sessions.filter(
        |row: SessionRow| hangs_under(sessions, roots, row.session_id@),
    ).map_values(|row: SessionRow| row.session_id)
}

/// Whether a session of a kind has been idle for longer than `secs`.
pub open spec fn is_idle(row: SessionRow, kind: SessionKind, now: i64, secs: int) -> bool {
    row.kind == kind && row.updated_at < now - secs
}

/// The ids of the sessions of a kind that have been idle for longer than
/// `secs`. A time that is less than none is of no session.
pub open spec fn idle_sessions(
    sessions: Seq<SessionRow>,
    kind: SessionKind,
    now: i64,
    secs: int,
) -> Seq<String> {
    if secs < 0 {
        Seq::empty()
    } else {
        sessions.filter(|row: SessionRow| is_idle(row, kind, now, secs)).map_values(
            |row: SessionRow| row.session_id,
        )
    }
}

/// What deleting idle sessions comes to: those of a kind that have been idle
/// for longer than `secs` go, with the subagents under them.
pub open spec fn are_swept(
    before: ConversationDb,
    after: ConversationDb,
    kind: SessionKind,
    now: i64,
    secs: int,
    ids: Seq<String>,
) -> bool {
    &&& ids == idle_sessions(before.sessions@, kind, now, secs)
    &&& sessions_deleted(before, family(before.sessions@, ids), after)
}

/// What deleting the idle sessions of subagents comes to.
pub open spec fn subagents_swept(
    before: ConversationDb,
    after: ConversationDb,
    days: int,
    now: i64,
    ids: Seq<String>,
) -> bool {
    are_swept(before, after, SessionKind::Subagent, now, days * 86_400, ids)
}

/// What deleting the idle sessions of one question comes to.
pub open spec fn asks_swept(
    before: ConversationDb,
    after: ConversationDb,
    hours: int,
    now: i64,
    ids: Seq<String>,
) -> bool {
    are_swept(before, after, SessionKind::Ask, now, hours * 3_600, ids)
}

impl SessionTables {
    /// Deletes what is kept for sessions.
    fn delete_sessions(&mut self, ids: &Vec<String>)
        ensures
            final(self).values@ == table::without(
                old(self).values@,
                |row: ValueRow| text::listed(ids@, row.session_id@),
            ),
            final(self).imports@ == table::without(
                old(self).imports@,
                |row: ImportRow| text::listed(ids@, row.session_id@),
            ),
            final(self).history@ == table::without(
                old(self).history@,
                |row: HistoryRow| text::listed(ids@, row.session_id@),
            ),
    {
        let test = |row: &ValueRow| -> (r: bool)
            ensures
                r == text::listed(ids@, row.session_id@),
        { is_listed(ids, row.session_id.as_str()) };
        delete_where(
            &mut self.values,
            test,
            Ghost(|row: ValueRow| text::listed(ids@, row.session_id@)),
        );
        let test = |row: &ImportRow| -> (r: bool)
            ensures
                r == text::listed(ids@, row.session_id@),
        { is_listed(ids, row.session_id.as_str()) };
        delete_where(
            &mut self.imports,
            test,
            Ghost(|row: ImportRow| text::listed(ids@, row.session_id@)),
        );
        let test = |row: &HistoryRow| -> (r: bool)
            ensures
                r == text::listed(ids@, row.session_id@),
        { is_listed(ids, row.session_id.as_str()) };
        delete_where(
            &mut self.history,
            test,
            Ghost(|row: HistoryRow| text::listed(ids@, row.session_id@)),
        );
    }
}

impl ConversationDb {
    /// The ids of the turns of sessions.
    fn turns_within(&self, sessions: &Vec<String>) -> (ids: Vec<String>)
        ensures
            ids@ == turns_of(self.turns@, sessions@),
    {
        let rows = &self.turns;
        let ghost keep = |row: TurnRow| text::listed(sessions@, row.session_id@);
        let ghost id = |row: TurnRow| row.turn_id;
        let mut ids: Vec<String> = Vec::new();
        let mut i: usize = 0;
        proof {
            reveal(Seq::filter);
            assert(rows@.take(0).filter(keep) =~= Seq::empty());
        }
        while i < rows.len()
            invariant
                i <= rows@.len(),
                keep == (|row: TurnRow| text::listed(sessions@, row.session_id@)),
                id == (|row: TurnRow| row.turn_id),
                ids@ =~= rows@.take(i as int).filter(keep).map_values(id),
            decreases rows@.len() - i,
        {
            proof {
                table::lemma_filter_step(rows@, keep, i as int);
            }
            if is_listed(sessions, rows[i].session_id.as_str()) {
                ids.push(rows[i].turn_id.clone());
            }
            i += 1;
        }
        assert(rows@.take(rows@.len() as int) =~= rows@);
        ids
    }

    /// Whether a session is a subagent under one of some others.
    fn is_hanging(&self, roots: &Vec<String>, session: &str) -> (r: bool)
        ensures
            r == hangs_under(self.sessions@, roots@, session@),
    {
        let mut i: usize = 0;
        while i < roots.len()
            invariant
                i <= roots@.len(),
                forall|k: int|
                    0 <= k < i ==> !cache_breaks::under(
                        self.sessions@,
                        (#[trigger] roots@[k])@,
                        session@,
                    ),
            decreases roots@.len() - i,
        {
            if is_under(&self.sessions, roots[i].as_str(), session, self.sessions.len()) {
                return true;
            }
            i += 1;
        }
        false
    }

    /// Sessions, and the subagents under them.
    fn family_of(&self, roots: &Vec<String>) -> (ids: Vec<String>)
        ensures
            ids@ == family(self.sessions@, roots@),
    {
        let rows = &self.sessions;
        let ghost keep = |row: SessionRow| hangs_under(rows@, roots@, row.session_id@);
        let ghost id = |row: SessionRow| row.session_id;
        let mut ids: Vec<String> = Vec::new();
        let mut i: usize = 0;
        while i < roots.len()
            invariant
                i <= roots@.len(),
                ids@ =~= roots@.take(i as int),
            decreases roots@.len() - i,
        {
            ids.push(roots[i].clone());
            i += 1;
        }
        let mut n: usize = 0;
        proof {
            reveal(Seq::filter);
            assert(roots@.take(roots@.len() as int) =~= roots@);
            assert(ids@ =~= roots@ + rows@.take(0).filter(keep).map_values(id));
        }
        while n < rows.len()
            invariant
                n <= rows@.len(),
                *rows == self.sessions,
                keep == (|row: SessionRow| hangs_under(rows@, roots@, row.session_id@)),
                id == (|row: SessionRow| row.session_id),
                ids@ =~= roots@ + rows@.take(n as int).filter(keep).map_values(id),
            decreases rows@.len() - n,
        {
            proof {
                table::lemma_filter_step(rows@, keep, n as int);
            }
            if self.is_hanging(roots, rows[n].session_id.as_str()) {
                let ghost kept = rows@.take(n as int).filter(keep);
                ids.push(rows[n].session_id.clone());
                assert(kept.push(rows@[n as int]).map_values(id) =~= kept.map_values(id).push(
                    rows@[n as int].session_id,
                ));
            }
            n += 1;
        }
        assert(rows@.take(rows@.len() as int) =~= rows@);
        ids
    }

    /// Deletes sessions and the subagents under them, with what they hold.
    pub fn delete_sessions(&mut self, roots: &Vec<String>)
        requires
            old(self).wf(),
        ensures
            final(self).wf(),
            sessions_deleted(*old(self), family(old(self).sessions@, roots@), *final(self)),
    {
        let ids = self.family_of(roots);
        self.delete_each(&ids);
    }

    /// Deletes these sessions with what they hold.
    fn delete_each(&mut self, ids: &Vec<String>)
        requires
            old(self).wf(),
        ensures
            final(self).wf(),
            sessions_deleted(*old(self), ids@, *final(self)),
    {
        let turn_ids = self.turns_within(ids);
        self.delete_turns(&turn_ids);
        let ghost mid = *self;
        proof {
            lemma_prompts_without(
                self.prompts@,
                |row: PromptRow| text::listed(ids@, row.session_id@),
            );
        }
        let test = |row: &SessionRow| -> (r: bool)
            ensures
                r == text::listed(ids@, row.session_id@),
        { is_listed(ids, row.session_id.as_str()) };
        delete_where(
            &mut self.sessions,
            test,
            Ghost(|row: SessionRow| text::listed(ids@, row.session_id@)),
        );
        let test = |row: &PromptRow| -> (r: bool)
            ensures
                r == text::listed(ids@, row.session_id@),
        { is_listed(ids, row.session_id.as_str()) };
        delete_where(
            &mut self.prompts,
            test,
            Ghost(|row: PromptRow| text::listed(ids@, row.session_id@)),
        );
        let test = |row: &LoadedItemRow| -> (r: bool)
            ensures
                r == text::listed(ids@, row.session_id@),
        { is_listed(ids, row.session_id.as_str()) };
        delete_where(
            &mut self.loaded_items,
            test,
            Ghost(|row: LoadedItemRow| text::listed(ids@, row.session_id@)),
        );
        let test = |row: &AttachmentRow| -> (r: bool)
            ensures
                r == text::listed(ids@, row.session_id@),
        { is_listed(ids, row.session_id.as_str()) };
        delete_where(
            &mut self.attachments,
            test,
            Ghost(|row: AttachmentRow| text::listed(ids@, row.session_id@)),
        );
        let test = |row: &CacheBreakRow| -> (r: bool)
            ensures
                r == text::listed(ids@, row.session_id@),
        { is_listed(ids, row.session_id.as_str()) };
        delete_where(
            &mut self.cache_breaks,
            test,
            Ghost(|row: CacheBreakRow| text::listed(ids@, row.session_id@)),
        );
        let test = |row: &HeldJobReport| -> (r: bool)
            ensures
                r == text::listed(ids@, row.session_id@),
        { is_listed(ids, row.session_id.as_str()) };
        delete_where(
            &mut self.held_reports,
            test,
            Ghost(|row: HeldJobReport| text::listed(ids@, row.session_id@)),
        );
        self.state.delete_sessions(ids);
        assert((ConversationDb {
            sessions: mid.sessions,
            prompts: mid.prompts,
            loaded_items: mid.loaded_items,
            attachments: mid.attachments,
            cache_breaks: mid.cache_breaks,
            held_reports: mid.held_reports,
            state: mid.state,
            ..*self
        }) == mid);
    }

    /// Deletes a session and the subagents under it, with what they hold, and
    /// the frozen skill catalogs of sessions that are gone.
    pub fn delete_session(&mut self, session_id: &String)
        requires
            old(self).wf(),
        ensures
            final(self).wf(),
            sessions_deleted(
                *old(self),
                family(old(self).sessions@, seq![*session_id]),
                ConversationDb { skill_catalogs: old(self).skill_catalogs, ..*final(self) },
            ),
            final(self).skill_catalogs@ == table::without(
                old(self).skill_catalogs@,
                |row: SkillCatalogRow|
                    !turns::has_session(final(self).sessions@, row.session_id@),
            ),
    {
        let mut ids: Vec<String> = Vec::new();
        ids.push(session_id.clone());
        assert(ids@ =~= seq![*session_id]);
        self.delete_sessions(&ids);
        let ghost mid = *self;
        self.prune_orphan_snapshots();
        assert((ConversationDb { skill_catalogs: mid.skill_catalogs, ..*self }) == mid);
    }

    /// Deletes the sessions of a kind that have been idle for longer than
    /// `amount` times `unit` seconds, with the subagents under them, and gives
    /// back the ids of those that were idle.
    fn delete_idle_sessions(&mut self, kind: SessionKind, amount: i64, unit: i64, now: i64) -> (ids:
        Vec<String>)
        requires
            old(self).wf(),
            0 < unit <= 86_400,
        ensures
            final(self).wf(),
            are_swept(*old(self), *final(self), kind, now, amount * unit, ids@),
    {
        let mut ids: Vec<String> = Vec::new();
        proof {
            assert(amount < 0 <==> amount * unit < 0) by (nonlinear_arith)
                requires
                    unit > 0,
            ;
            assert(-86_400 * 0x8000_0000_0000_0000 <= amount * unit <= 86_400
                * 0x8000_0000_0000_0000) by (nonlinear_arith)
                requires
                    0 < unit <= 86_400,
                    -0x8000_0000_0000_0000 <= amount <= 0x8000_0000_0000_0000,
            ;
        }
        if amount >= 0 {
            let rows = &self.sessions;
            let secs: i128 = amount as i128 * unit as i128;
            let ghost keep = |row: SessionRow| is_idle(row, kind, now, secs as int);
            let ghost id = |row: SessionRow| row.session_id;
            let mut i: usize = 0;
            proof {
                reveal(Seq::filter);
                assert(rows@.take(0).filter(keep) =~= Seq::empty());
                assert(ids@ =~= rows@.take(0).filter(keep).map_values(id));
            }
            while i < rows.len()
                invariant
                    i <= rows@.len(),
                    0 <= secs <= 86_400 * 0x8000_0000_0000_0000,
                    keep == (|row: SessionRow| is_idle(row, kind, now, secs as int)),
                    id == (|row: SessionRow| row.session_id),
                    ids@ =~= rows@.take(i as int).filter(keep).map_values(id),
                decreases rows@.len() - i,
            {
                proof {
                    table::lemma_filter_step(rows@, keep, i as int);
                }
                if rows[i].kind == kind && (rows[i].updated_at as i128) < now as i128 - secs {
                    ids.push(rows[i].session_id.clone());
                }
                i += 1;
            }
            assert(rows@.take(rows@.len() as int) =~= rows@);
        }
        assert(ids@ =~= idle_sessions(old(self).sessions@, kind, now, amount * unit));
        self.delete_sessions(&ids);
        ids
    }

    /// Deletes the sessions of subagents that have been idle for more than
    /// `days`, with the subagents under them, and gives back the ids of those
    /// that were idle.
    pub fn delete_subagent_sessions_older_than(&mut self, days: i64, now: &Stamp) -> (ids: Vec<
        String,
    >)
        requires
            old(self).wf(),
        ensures
            final(self).wf(),
            subagents_swept(*old(self), *final(self), days as int, now.secs, ids@),
    {
        self.delete_idle_sessions(SessionKind::Subagent, days, 86_400, now.secs)
    }

    /// Deletes the sessions of one question that have been idle for more than
    /// `hours`, and gives back their ids. One that was answered has deleted
    /// itself: what is left was abandoned.
    pub fn delete_ask_sessions_older_than(&mut self, hours: i64, now: &Stamp) -> (ids: Vec<String>)
        requires
            old(self).wf(),
        ensures
            final(self).wf(),
            asks_swept(*old(self), *final(self), hours as int, now.secs, ids@),
    {
        self.delete_idle_sessions(SessionKind::Ask, hours, 3_600, now.secs)
    }
}

// ---------------------------------------------------------------------------
// Laws
// ---------------------------------------------------------------------------

/// What is kept for a session goes away with it.
pub proof fn values_go_away_with_their_session(
    before: ConversationDb,
    ids: Seq<String>,
    after: ConversationDb,
    session: Seq<char>,
    kind: super::session_state::SessionValueKind,
)
    requires
        sessions_deleted(before, ids, after),
        text::listed(ids, session),
    ensures
        super::session_state::value_of(after.state.values@, session, kind) is None,
        !turns::has_session(after.sessions@, session),
{
    let chosen = |row: ValueRow| text::listed(ids, row.session_id@);
    super::session_state::lemma_value_at(after.state.values@, session, kind, 0);
    let at = super::session_state::value_at(after.state.values@, session, kind, 0);
    if at >= 0 {
        table::lemma_filtered(before.state.values@, |row: ValueRow| !chosen(row), at);
    }
    if turns::has_session(after.sessions@, session) {
        let i = choose|i: int|
            0 <= i < after.sessions@.len() && (#[trigger] after.sessions@[i]).session_id@ == session;
        let gone = |row: SessionRow| text::listed(ids, row.session_id@);
        table::lemma_filtered(before.sessions@, |row: SessionRow| !gone(row), i);
    }
}

/// Turns of other sessions stay when sessions are deleted.
pub proof fn other_sessions_keep_their_turns(
    before: ConversationDb,
    ids: Seq<String>,
    after: ConversationDb,
    at: int,
)
    requires
        before.wf(),
        sessions_deleted(before, ids, after),
        0 <= at < before.turns@.len(),
        !text::listed(ids, before.turns@[at].session_id@),
    ensures
        after.turns@.contains(before.turns@[at]),
{
    let turn = before.turns@[at];
    let keep = |row: TurnRow| text::listed(ids, row.session_id@);
    let picked = before.turns@.filter(keep);
    let gone = turns_of(before.turns@, ids);
    if text::listed(gone, turn.turn_id@) {
        let i = choose|i: int| 0 <= i < gone.len() && (#[trigger] gone[i])@ == turn.turn_id@;
        table::lemma_filtered(before.turns@, keep, i);
        before.turns@.lemma_filter_contains_rev(keep, picked[i]);
        let k = choose|k: int| 0 <= k < before.turns@.len() && before.turns@[k] == picked[i];
        if k != at {
            assert(before.turns@[k].turn_id@ != before.turns@[at].turn_id@);
        }
    }
    let chosen = |row: TurnRow| text::listed(gone, row.turn_id@);
    before.turns@.lemma_filter_contains(|row: TurnRow| !chosen(row), at);
    assert(after.turns@.contains(turn));
}

/// No session is there twice.
pub open spec fn sessions_differ(sessions: Seq<SessionRow>) -> bool {
    forall|i: int, j: int|
        0 <= i < j < sessions.len() ==> (#[trigger] sessions[i]).session_id@ != (
        #[trigger] sessions[j]).session_id@
}

/// Where a session that is there once is found.
proof fn lemma_session_at(sessions: Seq<SessionRow>, at: int, from: int)
    requires
        sessions_differ(sessions),
        0 <= from <= at < sessions.len(),
    ensures
        cache_breaks::session_at(sessions, sessions[at].session_id@, from) == at,
    decreases at - from,
{
    if from < at {
        assert(sessions[from].session_id@ != sessions[at].session_id@);
        lemma_session_at(sessions, at, from + 1);
    }
}

/// What is found is a session of that id.
proof fn lemma_found_session(sessions: Seq<SessionRow>, session: Seq<char>, from: int)
    requires
        0 <= from,
        cache_breaks::session_at(sessions, session, from) >= 0,
    ensures
        from <= cache_breaks::session_at(sessions, session, from) < sessions.len(),
        sessions[cache_breaks::session_at(sessions, session, from)].session_id@ == session,
    decreases sessions.len() - from,
{
    if from < sessions.len() && sessions[from].session_id@ != session {
        lemma_found_session(sessions, session, from + 1);
    }
}

/// A way up that is left was there before, and was no longer.
proof fn lemma_tree_before(
    before: Seq<SessionRow>,
    after: Seq<SessionRow>,
    root: Seq<char>,
    session: Seq<char>,
    steps: int,
    more: int,
)
    requires
        sessions_differ(before),
        forall|i: int| 0 <= i < after.len() ==> before.contains(#[trigger] after[i]),
        cache_breaks::in_tree(after, root, session, steps),
        steps <= more,
    ensures
        cache_breaks::in_tree(before, root, session, more),
    decreases steps,
{
    if session != root {
        lemma_found_session(after, session, 0);
        let at = cache_breaks::session_at(after, session, 0);
        let k = choose|k: int| 0 <= k < before.len() && before[k] == after[at];
        lemma_session_at(before, k, 0);
        lemma_tree_before(
            before,
            after,
            root,
            after[at].parent_session_id->0@,
            steps - 1,
            more - 1,
        );
    }
}

/// Broken caches of a session and of the subagents under it go away with it.
pub proof fn breaks_go_away_with_their_session(
    before: ConversationDb,
    roots: Seq<String>,
    after: ConversationDb,
    root: Seq<char>,
)
    requires
        sessions_differ(before.sessions@),
        sessions_deleted(before, family(before.sessions@, roots), after),
        text::listed(roots, root),
    ensures
        cache_breaks::breaks_under(after, root).len() == 0,
{
    let ids = family(before.sessions@, roots);
    let gone = |row: SessionRow| text::listed(ids, row.session_id@);
    let broken = |row: CacheBreakRow| text::listed(ids, row.session_id@);
    let own = |row: CacheBreakRow| cache_breaks::under(after.sessions@, root, row.session_id@);
    let left = after.cache_breaks@.filter(own);
    if left.len() > 0 {
        let row = left[0];
        table::lemma_filtered(after.cache_breaks@, own, 0);
        after.cache_breaks@.lemma_filter_contains_rev(own, row);
        let b = choose|b: int| 0 <= b < after.cache_breaks@.len() && after.cache_breaks@[b] == row;
        table::lemma_filtered(before.cache_breaks@, |row: CacheBreakRow| !broken(row), b);
        assert forall|i: int| 0 <= i < after.sessions@.len() implies before.sessions@.contains(
            #[trigger] after.sessions@[i],
        ) by {
            before.sessions@.lemma_filter_contains_rev(
                |row: SessionRow| !gone(row),
                after.sessions@[i],
            );
        }
        before.sessions@.lemma_filter_len(|row: SessionRow| !gone(row));
        let r = choose|r: int| 0 <= r < roots.len() && (#[trigger] roots[r])@ == root;
        assert(ids[r]@ == root);
        let session = row.session_id@;
        assert(session != root);
        lemma_found_session(after.sessions@, session, 0);
        lemma_tree_before(
            before.sessions@,
            after.sessions@,
            root,
            session,
            after.sessions@.len() as int,
            before.sessions@.len() as int,
        );
        let at = cache_breaks::session_at(after.sessions@, session, 0);
        let k = choose|k: int|
            0 <= k < before.sessions@.len() && before.sessions@[k] == after.sessions@[at];
        let keep = |row: SessionRow| hangs_under(before.sessions@, roots, row.session_id@);
        let kept = before.sessions@.filter(keep);
        assert(cache_breaks::under(before.sessions@, roots[r]@, session));
        before.sessions@.lemma_filter_contains(keep, k);
        let m = choose|m: int| 0 <= m < kept.len() && kept[m] == before.sessions@[k];
        assert(ids[roots.len() + m]@ == session);
    }
}

/// Whether a text is one of some.
pub open spec fn is_among(ids: Seq<String>, id: Seq<char>) -> bool {
    exists|k: int| 0 <= k < ids.len() && (#[trigger] ids[k])@ == id
}

/// Deleting turns takes every row of every table that belongs to one of them,
/// and leaves all others in their order. What belongs to sessions stays.
pub proof fn everything_of_a_turn_goes_with_it(
    before: ConversationDb,
    ids: Seq<String>,
    after: ConversationDb,
)
    requires
        turns_deleted(before, ids, after),
    ensures
        table::is_rest(
            before.turns@,
            after.turns@,
            |row: TurnRow| is_among(ids, row.turn_id@),
        ),
        table::is_rest(
            before.segments@,
            after.segments@,
            |row: SegmentRow| is_among(ids, row.turn_id@),
        ),
        table::is_rest(
            before.events@,
            after.events@,
            |row: EventRow| is_among(ids, row.turn_id@),
        ),
        table::is_rest(
            before.questions@,
            after.questions@,
            |row: QuestionRow| is_among(ids, row.turn_id@),
        ),
        table::is_rest(
            before.images@,
            after.images@,
            |row: AssetRow| is_among(ids, row.turn_id@),
        ),
        table::is_rest(
            before.artifacts@,
            after.artifacts@,
            |row: AssetRow| is_among(ids, row.turn_id@),
        ),
        table::is_rest(
            before.tool_reports@,
            after.tool_reports@,
            |row: ToolReportRow| is_among(ids, row.turn_id@),
        ),
        table::is_rest(
            before.footprints@,
            after.footprints@,
            |row: FootprintRow| is_among(ids, row.turn_id@),
        ),
        table::is_rest(
            before.replays@,
            after.replays@,
            |row: ReplayRow| is_among(ids, row.turn_id@),
        ),
        table::is_rest(
            before.checkpoints@,
            after.checkpoints@,
            |row: CheckpointRow| is_among(ids, row.turn_id@),
        ),
        table::is_rest(
            before.backups@,
            after.backups@,
            |row: BackupRow| is_among(ids, row.turn_id@),
        ),
        table::is_rest(
            before.question_backups@,
            after.question_backups@,
            |row: QuestionRow| is_among(ids, row.turn_id@),
        ),
        table::is_rest(
            before.image_backups@,
            after.image_backups@,
            |row: AssetRow| is_among(ids, row.turn_id@),
        ),
        table::is_rest(
            before.artifact_backups@,
            after.artifact_backups@,
            |row: AssetRow| is_among(ids, row.turn_id@),
        ),
        after.sessions == before.sessions && after.prompts == before.prompts && after.loaded_items
            == before.loaded_items && after.attachments == before.attachments,
{
    table::lemma_rest_of(
        before.turns@,
        after.turns@,
        |row: TurnRow| is_among(ids, row.turn_id@),
    );
    table::lemma_rest_of(
        before.segments@,
        after.segments@,
        |row: SegmentRow| is_among(ids, row.turn_id@),
    );
    table::lemma_rest_of(
        before.events@,
        after.events@,
        |row: EventRow| is_among(ids, row.turn_id@),
    );
    table::lemma_rest_of(
        before.questions@,
        after.questions@,
        |row: QuestionRow| is_among(ids, row.turn_id@),
    );
    table::lemma_rest_of(
        before.images@,
        after.images@,
        |row: AssetRow| is_among(ids, row.turn_id@),
    );
    table::lemma_rest_of(
        before.artifacts@,
        after.artifacts@,
        |row: AssetRow| is_among(ids, row.turn_id@),
    );
    table::lemma_rest_of(
        before.tool_reports@,
        after.tool_reports@,
        |row: ToolReportRow| is_among(ids, row.turn_id@),
    );
    table::lemma_rest_of(
        before.footprints@,
        after.footprints@,
        |row: FootprintRow| is_among(ids, row.turn_id@),
    );
    table::lemma_rest_of(
        before.replays@,
        after.replays@,
        |row: ReplayRow| is_among(ids, row.turn_id@),
    );
    table::lemma_rest_of(
        before.checkpoints@,
        after.checkpoints@,
        |row: CheckpointRow| is_among(ids, row.turn_id@),
    );
    table::lemma_rest_of(
        before.backups@,
        after.backups@,
        |row: BackupRow| is_among(ids, row.turn_id@),
    );
    table::lemma_rest_of(
        before.question_backups@,
        after.question_backups@,
        |row: QuestionRow| is_among(ids, row.turn_id@),
    );
    table::lemma_rest_of(
        before.image_backups@,
        after.image_backups@,
        |row: AssetRow| is_among(ids, row.turn_id@),
    );
    table::lemma_rest_of(
        before.artifact_backups@,
        after.artifact_backups@,
        |row: AssetRow| is_among(ids, row.turn_id@),
    );
}

/// Turns of a session are deleted exactly where each of them is a turn of it
/// that is neither hidden nor a summary nor running, and none is named twice.
/// Where one is not, nothing changes.
pub proof fn all_or_no_turns_are_deleted(
    before: ConversationDb,
    after: ConversationDb,
    session: Seq<char>,
    ids: Seq<String>,
    affected: Result<usize, DbError>,
    k: int,
    m: int,
    i: int,
)
    requires
        before.wf(),
        are_deleted(before, after, session, ids, affected),
    ensures
        affected is Err ==> after == before,
        affected matches Ok(n) ==> n == ids.len(),
        0 <= k < m < ids.len() && ids[k]@ == ids[m]@ ==> affected is Err,
        0 <= k < ids.len() && 0 <= i < before.turns@.len() && before.turns@[i].turn_id@ == ids[k]@
            && (before.turns@[i].session_id@ != session || before.turns@[i].hidden
            || before.turns@[i].is_summary || before.turns@[i].status is Running) ==> affected
            is Err,
        0 <= k < ids.len() && (forall|j: int|
            0 <= j < before.turns@.len() ==> (#[trigger] before.turns@[j]).turn_id@ != ids[k]@)
            ==> affected is Err,
        (forall|a: int, b: int|
            0 <= a < b < ids.len() ==> (#[trigger] ids[a])@ != (#[trigger] ids[b])@) && (forall|
            a: int,
        |
            0 <= a < ids.len() ==> exists|j: int|
                0 <= j < before.turns@.len() && before.turns@[j].turn_id@ == (#[trigger] ids[a])@
                    && can_go(#[trigger] before.turns@[j], session)) ==> affected is Ok,
        affected is Ok ==> table::is_rest(
            before.turns@,
            after.turns@,
            |row: TurnRow| is_among(ids, row.turn_id@),
        ) && table::is_rest(
            before.loaded_items@,
            after.loaded_items@,
            |row: LoadedItemRow|
                row.session_id@ == session && (row.item.source_turn_id matches Some(source)
                    && is_among(ids, source@)),
        ),
{
    if 0 <= k < ids.len() {
        if 0 <= i < before.turns@.len() && before.turns@[i].turn_id@ == ids[k]@ {
            super::lemma_turn_at(before.turns@, ids[k]@, i);
        }
        let at = before.turn_at(ids[k]@);
        if at >= 0 {
            assert(super::is_turn_at(before.turns@, ids[k]@, at));
            let turn = before.turns@[at];
        }
    }
    if affected is Ok {
        everything_of_a_turn_goes_with_it(
            before,
            ids,
            ConversationDb { loaded_items: before.loaded_items, ..after },
        );
        table::lemma_rest_of(
            before.loaded_items@,
            after.loaded_items@,
            |row: LoadedItemRow|
                row.session_id@ == session && (row.item.source_turn_id matches Some(source)
                    && is_among(ids, source@)),
        );
    } else if (forall|a: int, b: int|
        0 <= a < b < ids.len() ==> (#[trigger] ids[a])@ != (#[trigger] ids[b])@) && (forall|
        a: int,
    |
        0 <= a < ids.len() ==> exists|j: int|
            0 <= j < before.turns@.len() && before.turns@[j].turn_id@ == (#[trigger] ids[a])@
                && can_go(#[trigger] before.turns@[j], session)) {
        assert forall|a: int| 0 <= a < ids.len() implies deletable(
            before,
            session,
            (#[trigger] ids[a])@,
        ) by {
            let j = choose|j: int|
                0 <= j < before.turns@.len() && before.turns@[j].turn_id@ == ids[a]@ && can_go(
                    #[trigger] before.turns@[j],
                    session,
                );
            super::lemma_turn_at(before.turns@, ids[a]@, j);
        }
    }
}

/// Whether a turn of a session can go.
pub open spec fn can_go(turn: TurnRow, session: Seq<char>) -> bool {
    turn.session_id@ == session && !turn.hidden && !turn.is_summary && turn.status !is Running
}

/// Deleting sessions takes every row that is kept for one of them, and leaves
/// all others in their order.
pub proof fn everything_of_a_session_goes_with_it(
    before: ConversationDb,
    ids: Seq<String>,
    after: ConversationDb,
)
    requires
        before.wf(),
        sessions_deleted(before, ids, after),
    ensures
        table::is_rest(
            before.turns@,
            after.turns@,
            |row: TurnRow| is_among(ids, row.session_id@),
        ),
        table::is_rest(
            before.sessions@,
            after.sessions@,
            |row: SessionRow| is_among(ids, row.session_id@),
        ),
        table::is_rest(
            before.prompts@,
            after.prompts@,
            |row: PromptRow| is_among(ids, row.session_id@),
        ),
        table::is_rest(
            before.loaded_items@,
            after.loaded_items@,
            |row: LoadedItemRow| is_among(ids, row.session_id@),
        ),
        table::is_rest(
            before.attachments@,
            after.attachments@,
            |row: AttachmentRow| is_among(ids, row.session_id@),
        ),
        table::is_rest(
            before.cache_breaks@,
            after.cache_breaks@,
            |row: CacheBreakRow| is_among(ids, row.session_id@),
        ),
        table::is_rest(
            before.held_reports@,
            after.held_reports@,
            |row: HeldJobReport| is_among(ids, row.session_id@),
        ),
        table::is_rest(
            before.state.values@,
            after.state.values@,
            |row: ValueRow| is_among(ids, row.session_id@),
        ),
        table::is_rest(
            before.state.imports@,
            after.state.imports@,
            |row: ImportRow| is_among(ids, row.session_id@),
        ),
        table::is_rest(
            before.state.history@,
            after.state.history@,
            |row: HistoryRow| is_among(ids, row.session_id@),
        ),
{
    table::lemma_rest_of(
        before.sessions@,
        after.sessions@,
        |row: SessionRow| is_among(ids, row.session_id@),
    );
    table::lemma_rest_of(
        before.prompts@,
        after.prompts@,
        |row: PromptRow| is_among(ids, row.session_id@),
    );
    table::lemma_rest_of(
        before.loaded_items@,
        after.loaded_items@,
        |row: LoadedItemRow| is_among(ids, row.session_id@),
    );
    table::lemma_rest_of(
        before.attachments@,
        after.attachments@,
        |row: AttachmentRow| is_among(ids, row.session_id@),
    );
    table::lemma_rest_of(
        before.cache_breaks@,
        after.cache_breaks@,
        |row: CacheBreakRow| is_among(ids, row.session_id@),
    );
    table::lemma_rest_of(
        before.held_reports@,
        after.held_reports@,
        |row: HeldJobReport| is_among(ids, row.session_id@),
    );
    table::lemma_rest_of(
        before.state.values@,
        after.state.values@,
        |row: ValueRow| is_among(ids, row.session_id@),
    );
    table::lemma_rest_of(
        before.state.imports@,
        after.state.imports@,
        |row: ImportRow| is_among(ids, row.session_id@),
    );
    table::lemma_rest_of(
        before.state.history@,
        after.state.history@,
        |row: HistoryRow| is_among(ids, row.session_id@),
    );
    let own = turns_of(before.turns@, ids);
    let of = |row: TurnRow| text::listed(ids, row.session_id@);
    let rows = before.turns@.filter(of);
    let gone = |row: TurnRow| text::listed(own, row.turn_id@);
    assert(after.turns@ == table::without(before.turns@, gone));
    assert forall|i: int| 0 <= i < before.turns@.len() implies gone(#[trigger] before.turns@[i])
        == is_among(ids, before.turns@[i].session_id@) by {
        let turn = before.turns@[i];
        if of(turn) {
            before.turns@.lemma_filter_contains(of, i);
            let k = choose|k: int| 0 <= k < rows.len() && rows[k] == turn;
            assert(own[k]@ == turn.turn_id@);
        }
        if gone(turn) {
            let k = choose|k: int| 0 <= k < own.len() && (#[trigger] own[k])@ == turn.turn_id@;
            table::lemma_filtered(before.turns@, of, k);
            assert(rows.contains(rows[k]));
            before.turns@.lemma_filter_contains_rev(of, rows[k]);
            let j = choose|j: int| 0 <= j < before.turns@.len() && before.turns@[j] == rows[k];
            assert(before.turns@[j].turn_id@ == turn.turn_id@);
            if i < j {
                assert(before.turns@[i].turn_id@ != before.turns@[j].turn_id@);
            } else if j < i {
                assert(before.turns@[j].turn_id@ != before.turns@[i].turn_id@);
            }
        }
    }
    table::lemma_rest(
        before.turns@,
        gone,
        |row: TurnRow| is_among(ids, row.session_id@),
    );
}

/// The sessions of subagents that go are those that were last used more than so
/// many days ago, and those of one question so many hours ago. Neither takes a
/// session of another kind for idle, and a time below none takes none.
pub proof fn only_idle_sessions_are_swept(
    before: ConversationDb,
    after: ConversationDb,
    days: int,
    hours: int,
    now: i64,
    subagents: Seq<String>,
    asks: Seq<String>,
    swept: ConversationDb,
    s: int,
)
    requires
        subagents_swept(before, after, days, now, subagents),
        asks_swept(before, swept, hours, now, asks),
        0 <= s < before.sessions@.len(),
    ensures
        ({
            let row = before.sessions@[s];
            let old = |row: SessionRow|
                row.kind is Subagent && row.updated_at < now - days * 24 * 60 * 60;
            let left = |row: SessionRow|
                row.kind is Ask && row.updated_at < now - hours * 60 * 60;
            let n = before.sessions@.len() as int;
            &&& days < 0 ==> subagents.len() == 0
            &&& hours < 0 ==> asks.len() == 0
            &&& days >= 0 ==> subagents.len() == table::count(before.sessions@, old, n)
            &&& days >= 0 && old(row) ==> subagents[table::count(before.sessions@, old, s)]
                == row.session_id
            &&& hours >= 0 ==> asks.len() == table::count(before.sessions@, left, n)
            &&& hours >= 0 && left(row) ==> asks[table::count(before.sessions@, left, s)]
                == row.session_id
        }),
{
    let rows = before.sessions@;
    let n = rows.len() as int;
    let old = |row: SessionRow| row.kind is Subagent && row.updated_at < now - days * 24 * 60 * 60;
    let left = |row: SessionRow| row.kind is Ask && row.updated_at < now - hours * 60 * 60;
    if days >= 0 {
        table::lemma_same_filter(
            rows,
            |row: SessionRow| is_idle(row, SessionKind::Subagent, now, days * 86_400),
            old,
        );
        table::lemma_count(rows, old, n);
        if old(rows[s]) {
            table::lemma_chosen_place(rows, old, s);
        }
    }
    if hours >= 0 {
        table::lemma_same_filter(
            rows,
            |row: SessionRow| is_idle(row, SessionKind::Ask, now, hours * 3_600),
            left,
        );
        table::lemma_count(rows, left, n);
        if left(rows[s]) {
            table::lemma_chosen_place(rows, left, s);
        }
    }
}

/// With a session go all subagents under it: every one that counts for a
/// session that goes is among those that go, and so is the session itself.
pub proof fn subagents_go_with_their_session(
    sessions: Seq<SessionRow>,
    roots: Seq<String>,
    r: int,
    s: int,
)
    requires
        0 <= r < roots.len(),
    ensures
        is_among(family(sessions, roots), roots[r]@),
        0 <= s < sessions.len() && cache_breaks::under(
            sessions,
            roots[r]@,
            sessions[s].session_id@,
        ) ==> is_among(family(sessions, roots), sessions[s].session_id@),
{
    let all = family(sessions, roots);
    assert(all[r]@ == roots[r]@);
    if 0 <= s < sessions.len() && cache_breaks::under(
        sessions,
        roots[r]@,
        sessions[s].session_id@,
    ) {
        let chosen = |row: SessionRow| hangs_under(sessions, roots, row.session_id@);
        assert(chosen(sessions[s]));
        let rows = sessions.filter(chosen);
        sessions.lemma_filter_contains(chosen, s);
        let k = choose|k: int| 0 <= k < rows.len() && rows[k] == sessions[s];
        assert(all[roots.len() + k]@ == sessions[s].session_id@);
    }
}

} // verus!
