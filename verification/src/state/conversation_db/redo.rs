//! Undoing a redo.

use vstd::prelude::*;

use crate::text::{self, is_listed, same_text};

use super::rows::{
    AssetRow, BackupRow, Checkpoint, CheckpointRow, DbError, EventRow, LoadedItem,
    LoadedItemRow, PromptRow, PromptStatus, QuestionRow, SegmentRow, ToolReportRow, TurnRedoBackup,
    TurnRow, TurnStatus,
};
use crate::table::{self, delete_where};
use super::{find_turn, ConversationDb};

verus! {

/// The rows of a table after those of a turn were replaced by their backups.
pub open spec fn put_back<T>(rows: Seq<T>, backups: Seq<T>, of_turn: spec_fn(T) -> bool) -> Seq<T> {
    table::without(rows, of_turn) + backups.filter(of_turn)
}

/// Replaces the questions of a turn by their backups.
fn put_back_questions(rows: &mut Vec<QuestionRow>, backups: &Vec<QuestionRow>, turn_id: &str)
    ensures
        final(rows)@ == put_back(
            old(rows)@,
            backups@,
            |row: QuestionRow| row.turn_id@ == turn_id@,
        ),
{
    let ghost of_turn = |row: QuestionRow| row.turn_id@ == turn_id@;
    let test = |row: &QuestionRow| -> (r: bool)
        ensures
            r == (row.turn_id@ == turn_id@),
    { same_text(row.turn_id.as_str(), turn_id) };
    delete_where(rows, test, Ghost(of_turn));
    let ghost start = rows@;
    let mut i: usize = 0;
    proof {
        reveal(Seq::filter);
        assert(backups@.take(0).filter(of_turn) =~= Seq::empty());
    }
    while i < backups.len()
        invariant
            i <= backups@.len(),
            of_turn == (|row: QuestionRow| row.turn_id@ == turn_id@),
            rows@ =~= start + backups@.take(i as int).filter(of_turn),
        decreases backups@.len() - i,
    {
        proof {
            table::lemma_filter_step(backups@, of_turn, i as int);
        }
        if same_text(backups[i].turn_id.as_str(), turn_id) {
            rows.push(backups[i].copy());
        }
        i += 1;
    }
    assert(backups@.take(backups@.len() as int) =~= backups@);
}

/// Replaces the images or the files of a turn by their backups.
fn put_back_assets(rows: &mut Vec<AssetRow>, backups: &Vec<AssetRow>, turn_id: &str)
    ensures
        final(rows)@ == put_back(old(rows)@, backups@, |row: AssetRow| row.turn_id@ == turn_id@),
{
    let ghost of_turn = |row: AssetRow| row.turn_id@ == turn_id@;
    let test = |row: &AssetRow| -> (r: bool)
        ensures
            r == (row.turn_id@ == turn_id@),
    { same_text(row.turn_id.as_str(), turn_id) };
    delete_where(rows, test, Ghost(of_turn));
    let ghost start = rows@;
    let mut i: usize = 0;
    proof {
        reveal(Seq::filter);
        assert(backups@.take(0).filter(of_turn) =~= Seq::empty());
    }
    while i < backups.len()
        invariant
            i <= backups@.len(),
            of_turn == (|row: AssetRow| row.turn_id@ == turn_id@),
            rows@ =~= start + backups@.take(i as int).filter(of_turn),
        decreases backups@.len() - i,
    {
        proof {
            table::lemma_filter_step(backups@, of_turn, i as int);
        }
        if same_text(backups[i].turn_id.as_str(), turn_id) {
            rows.push(backups[i].copy());
        }
        i += 1;
    }
    assert(backups@.take(backups@.len() as int) =~= backups@);
}

/// The rows that list `items` as loaded in `session`.
pub open spec fn loaded_rows(session: String, items: Seq<LoadedItem>) -> Seq<LoadedItemRow> {
    items.map_values(|item: LoadedItem| LoadedItemRow { session_id: session, item })
}

/// Replaces what is loaded in a session.
fn put_back_loaded(rows: &mut Vec<LoadedItemRow>, session: &String, items: Vec<LoadedItem>)
    ensures
        final(rows)@ == table::without(
            old(rows)@,
            |row: LoadedItemRow| row.session_id@ == session@,
        ) + loaded_rows(*session, items@),
{
    let test = |row: &LoadedItemRow| -> (r: bool)
        ensures
            r == (row.session_id@ == session@),
    { same_text(row.session_id.as_str(), session.as_str()) };
    delete_where(rows, test, Ghost(|row: LoadedItemRow| row.session_id@ == session@));
    let ghost start = rows@;
    let ghost all = items@;
    let ghost mut done: int = 0;
    let mut items = items;
    while items.len() > 0
        invariant
            0 <= done <= all.len(),
            items@ =~= all.skip(done),
            rows@ =~= start + loaded_rows(*session, all.take(done)),
        decreases items@.len(),
    {
        let item = items.remove(0);
        rows.push(LoadedItemRow { session_id: session.clone(), item });
        proof {
            done = done + 1;
        }
    }
    assert(all.take(done) =~= all);
}

/// Whether a message was taken into a turn.
pub open spec fn taken_into(prompt: PromptRow, turn_id: Seq<char>) -> bool {
    prompt.status == PromptStatus::Consumed && prompt.turn_id is Some && prompt.turn_id->Some_0@
        == turn_id
}

/// Whether a message was taken into a turn.
pub fn is_taken_into(prompt: &PromptRow, turn_id: &str) -> (r: bool)
    ensures
        r == taken_into(*prompt, turn_id@),
{
    if prompt.status != PromptStatus::Consumed {
        return false;
    }
    match &prompt.turn_id {
        Some(id) => same_text(id.as_str(), turn_id),
        None => false,
    }
}

/// The place of the last message that was taken into a turn, and -1 where
/// there is none, among the first `n`.
pub open spec fn last_taken(prompts: Seq<PromptRow>, turn_id: Seq<char>, n: int) -> int
    decreases n,
{
    if n <= 0 {
        -1
    } else if taken_into(prompts[n - 1], turn_id) {
        n - 1
    } else {
        last_taken(prompts, turn_id, n - 1)
    }
}

/// The messages after those that a redo took in are gone.
pub open spec fn prompts_kept(
    prompts: Seq<PromptRow>,
    turn_id: Seq<char>,
    original: Seq<String>,
) -> Seq<PromptRow> {
    table::without(
        prompts,
        |row: PromptRow| taken_into(row, turn_id) && !text::listed(original, row.prompt_id@),
    )
}

/// The messages with the wording of the last one that a turn took in put back.
pub open spec fn followup_restored(
    prompts: Seq<PromptRow>,
    turn_id: Seq<char>,
    content: Option<String>,
    display_content: Option<String>,
    context_content: Option<String>,
) -> Seq<PromptRow> {
    let at = last_taken(prompts, turn_id, prompts.len() as int);
    if content is Some && display_content is Some && at >= 0 {
        prompts.update(
            at,
            PromptRow {
                content: content->Some_0,
                display_content: display_content->Some_0,
                context_content,
                ..prompts[at]
            },
        )
    } else {
        prompts
    }
}

/// Deletes the messages that a redo took in.
fn keep_prompts(prompts: &mut Vec<PromptRow>, turn_id: &str, original: &Vec<String>)
    ensures
        final(prompts)@ == prompts_kept(old(prompts)@, turn_id@, original@),
{
    let test = |row: &PromptRow| -> (r: bool)
        ensures
            r == (taken_into(*row, turn_id@) && !text::listed(original@, row.prompt_id@)),
    { is_taken_into(row, turn_id) && !is_listed(original, row.prompt_id.as_str()) };
    delete_where(prompts, test, Ghost(|row: PromptRow| taken_into(row, turn_id@) && !text::listed(original@, row.prompt_id@)));
}

/// Puts the wording of the last message that a turn took in back.
#[verifier::loop_isolation(false)]
fn restore_followup(
    prompts: &mut Vec<PromptRow>,
    turn_id: &str,
    content: Option<String>,
    display_content: Option<String>,
    context_content: Option<String>,
)
    ensures
        final(prompts)@ == followup_restored(
            old(prompts)@,
            turn_id@,
            content,
            display_content,
            context_content,
        ),
{
    let (content, display_content) = match (content, display_content) {
        (Some(content), Some(display_content)) => (content, display_content),
        _ => return ,
    };
    let ghost before = prompts@;
    let mut n: usize = prompts.len();
    while n > 0
        invariant
            n <= prompts@.len(),
            prompts@ == before,
            last_taken(before, turn_id@, before.len() as int) == last_taken(
                before,
                turn_id@,
                n as int,
            ),
        decreases n,
    {
        if is_taken_into(&prompts[n - 1], turn_id) {
            let at: usize = n - 1;
            let row = &mut prompts[at];
            row.content = content;
            row.display_content = display_content;
            row.context_content = context_content;
            assert(prompts@ =~= before.update(at as int, prompts@[at as int]));
            return ;
        }
        n -= 1;
    }
}

/// The number before a revision.
pub open spec fn revision_before(revision: i64) -> i64 {
    if revision == i64::MIN {
        revision
    } else {
        (revision - 1) as i64
    }
}

/// A turn as it was before it was redone.
pub open spec fn turn_restored(turn: TurnRow, backup: TurnRedoBackup) -> TurnRow {
    TurnRow {
        user_content: backup.user_content,
        display_content: backup.display_content,
        assistant_content: backup.assistant_content,
        assistant_reasoning: backup.assistant_reasoning,
        assistant_provider_id: backup.assistant_provider_id,
        assistant_model: backup.assistant_model,
        assistant_timestamp: backup.assistant_timestamp,
        status: backup.status,
        tool_reports: backup.tool_reports,
        owner_pid: backup.owner_pid,
        queue_session_id: backup.queue_session_id,
        token_total: backup.token_total,
        token_usage_estimated: backup.token_usage_estimated,
        revision: revision_before(turn.revision),
        token_prompt: backup.token_prompt,
        token_cache_read: backup.token_cache_read,
        ..turn
    }
}

/// Where the backup of a generation stands, and -1 where there is none, among
/// the first `n`.
pub open spec fn backup_index(
    backups: Seq<BackupRow>,
    turn_id: Seq<char>,
    revision: i64,
    n: int,
) -> int
    decreases n,
{
    if n <= 0 {
        -1
    } else {
        let before = backup_index(backups, turn_id, revision, n - 1);
        if before >= 0 {
            before
        } else if backups[n - 1].turn_id@ == turn_id && backups[n - 1].revision == revision {
            n - 1
        } else {
            -1
        }
    }
}

/// Where the backup of a generation stands.
pub fn find_backup(backups: &Vec<BackupRow>, turn_id: &str, revision: i64) -> (at: Option<usize>)
    ensures
        match at {
            Some(i) => i < backups.len() && backup_index(
                backups@,
                turn_id@,
                revision,
                backups@.len() as int,
            ) == i && backups@[i as int].turn_id@ == turn_id@ && backups@[i as int].revision
                == revision,
            None => backup_index(backups@, turn_id@, revision, backups@.len() as int) == -1,
        },
{
    let mut i: usize = 0;
    let mut found: Option<usize> = None;
    while i < backups.len()
        invariant
            i <= backups@.len(),
            match found {
                Some(k) => k < i && backup_index(backups@, turn_id@, revision, i as int) == k
                    && backups@[k as int].turn_id@ == turn_id@ && backups@[k as int].revision
                    == revision,
                None => backup_index(backups@, turn_id@, revision, i as int) == -1,
            },
        decreases backups@.len() - i,
    {
        if found.is_none() && backups[i].revision == revision && same_text(
            backups[i].turn_id.as_str(),
            turn_id,
        ) {
            found = Some(i);
        }
        i += 1;
    }
    found
}

/// Puts the checkpoint of a turn back.
fn put_back_checkpoint(rows: &mut Vec<CheckpointRow>, turn_id: &String, checkpoint: Option<Checkpoint>)
    ensures
        final(rows)@ == table::without(old(rows)@, |row: CheckpointRow| row.turn_id@ == turn_id@) + (
        match checkpoint {
            Some(checkpoint) => seq![CheckpointRow { turn_id: *turn_id, checkpoint }],
            None => Seq::empty(),
        }),
{
    let test = |row: &CheckpointRow| -> (r: bool)
        ensures
            r == (row.turn_id@ == turn_id@),
    { same_text(row.turn_id.as_str(), turn_id.as_str()) };
    delete_where(rows, test, Ghost(|row: CheckpointRow| row.turn_id@ == turn_id@));
    let ghost start = rows@;
    if let Some(checkpoint) = checkpoint {
        rows.push(CheckpointRow { turn_id: turn_id.clone(), checkpoint });
        assert(rows@ =~= start + seq![CheckpointRow { turn_id: *turn_id, checkpoint }]);
    } else {
        assert(rows@ =~= start + Seq::<CheckpointRow>::empty());
    }
}

/// The segments of a generation.
pub open spec fn segments_of(turn_id: Seq<char>, revision: i64) -> spec_fn(SegmentRow) -> bool {
    |row: SegmentRow| row.turn_id@ == turn_id && row.revision == revision
}

/// The events of a generation.
pub open spec fn events_of(turn_id: Seq<char>, revision: i64) -> spec_fn(EventRow) -> bool {
    |row: EventRow| row.turn_id@ == turn_id && row.revision == revision
}

/// The backups of a generation.
pub open spec fn backups_of(turn_id: Seq<char>, revision: i64) -> spec_fn(BackupRow) -> bool {
    |row: BackupRow| row.turn_id@ == turn_id && row.revision == revision
}

/// The tables after the redo of a turn was undone: what the redo made is gone
/// and what was there before it is back.
pub open spec fn redo_undone(
    before: ConversationDb,
    turn_id: Seq<char>,
    revision: i64,
    after: ConversationDb,
) -> bool {
    let at = before.turn_at(turn_id);
    let turn = before.turns@[at];
    let backup = before.backups@[backup_index(
        before.backups@,
        turn_id,
        revision,
        before.backups@.len() as int,
    )].backup;
    &&& after.turns@ == before.turns@.update(at, turn_restored(turn, backup))
    &&& after.segments@ == table::without(
        before.segments@,
        segments_of(turn_id, revision),
    )
    &&& after.events@ == table::without(
        before.events@,
        events_of(turn_id, revision),
    )
    &&& after.questions@ == put_back(
        before.questions@,
        before.question_backups@,
        |row: QuestionRow| row.turn_id@ == turn_id,
    )
    &&& after.images@ == put_back(
        before.images@,
        before.image_backups@,
        |row: AssetRow| row.turn_id@ == turn_id,
    )
    &&& after.artifacts@ == put_back(
        before.artifacts@,
        before.artifact_backups@,
        |row: AssetRow| row.turn_id@ == turn_id,
    )
    &&& after.tool_reports@ == table::without(
        before.tool_reports@,
        |row: ToolReportRow| row.turn_id@ == turn_id,
    )
    &&& after.loaded_items@ == table::without(
        before.loaded_items@,
        |row: LoadedItemRow| row.session_id@ == turn.session_id@,
    ) + loaded_rows(turn.session_id, backup.loaded_items@)
    &&& after.prompts@ == followup_restored(
        prompts_kept(before.prompts@, turn_id, backup.consumed_prompt_ids@),
        turn_id,
        backup.followup_content,
        backup.followup_display_content,
        backup.followup_context_content,
    )
    &&& after.checkpoints@ == table::without(
        before.checkpoints@,
        |row: CheckpointRow| row.turn_id@ == turn_id,
    ) + (match backup.checkpoint {
        Some(checkpoint) => seq![CheckpointRow { turn_id: turn.turn_id, checkpoint }],
        None => Seq::empty(),
    })
    &&& after.backups@ == table::without(
        before.backups@,
        backups_of(turn_id, revision),
    )
    &&& after == (ConversationDb {
        turns: after.turns,
        segments: after.segments,
        events: after.events,
        questions: after.questions,
        images: after.images,
        artifacts: after.artifacts,
        tool_reports: after.tool_reports,
        loaded_items: after.loaded_items,
        prompts: after.prompts,
        checkpoints: after.checkpoints,
        backups: after.backups,
        ..before
    })
}

/// Whether a backup of a generation is there.
pub open spec fn has_backup(db: ConversationDb, turn_id: Seq<char>, revision: i64) -> bool {
    backup_index(db.backups@, turn_id, revision, db.backups@.len() as int) >= 0
}

/// Whether a turn is running at a revision.
pub open spec fn runs_at(db: ConversationDb, turn_id: Seq<char>, revision: i64) -> bool {
    let at = db.turn_at(turn_id);
    at >= 0 && db.turns@[at].revision == revision && db.turns@[at].status == TurnStatus::Running
}

/// What asking for a redo to be undone comes to. One that left no backup stays
/// as it is, and a backup of a turn that does not run is turned down.
pub open spec fn is_undone_where_kept(
    before: ConversationDb,
    after: ConversationDb,
    turn_id: Seq<char>,
    revision: i64,
    restored: Result<bool, DbError>,
) -> bool {
    match restored {
        Ok(true) => has_backup(before, turn_id, revision) && runs_at(before, turn_id, revision)
            && redo_undone(before, turn_id, revision, after),
        Ok(false) => !has_backup(before, turn_id, revision) && after == before,
        Err(e) => e == DbError::NotRunning && has_backup(before, turn_id, revision) && !runs_at(
            before,
            turn_id,
            revision,
        ) && after == before,
    }
}

impl ConversationDb {
    /// Undoes the redo of a turn, where it left a backup. Says whether there
    /// was one.
    pub fn restore_redo_backup(&mut self, turn_id: &str, revision: i64) -> (restored: Result<
        bool,
        DbError,
    >)
        requires
            old(self).wf(),
        ensures
            final(self).wf(),
            is_undone_where_kept(*old(self), *final(self), turn_id@, revision, restored),
    {
        let at_backup: usize = match find_backup(&self.backups, turn_id, revision) {
            Some(i) => i,
            None => return Ok(false),
        };
        let at: usize = match find_turn(&self.turns, turn_id) {
            Some(i) => i,
            None => return Err(DbError::NotRunning),
        };
        if self.turns[at].revision != revision || self.turns[at].status != TurnStatus::Running {
            return Err(DbError::NotRunning);
        }
        let ghost before = *self;
        let row = self.backups.remove(at_backup);
        let backup = row.backup;
        proof {
            table::lemma_without_removed(
                before.backups@,
                backups_of(turn_id@, revision),
                at_backup as int,
            );
        }
        let test = |row: &BackupRow| -> (r: bool)
            ensures
                r == (row.turn_id@ == turn_id@ && row.revision == revision),
        { row.revision == revision && same_text(row.turn_id.as_str(), turn_id) };
        delete_where(
            &mut self.backups,
            test,
            Ghost(backups_of(turn_id@, revision)),
        );
        let test = |row: &SegmentRow| -> (r: bool)
            ensures
                r == (row.turn_id@ == turn_id@ && row.revision == revision),
        { row.revision == revision && same_text(row.turn_id.as_str(), turn_id) };
        delete_where(
            &mut self.segments,
            test,
            Ghost(segments_of(turn_id@, revision)),
        );
        let test = |row: &EventRow| -> (r: bool)
            ensures
                r == (row.turn_id@ == turn_id@ && row.revision == revision),
        { row.revision == revision && same_text(row.turn_id.as_str(), turn_id) };
        delete_where(
            &mut self.events,
            test,
            Ghost(events_of(turn_id@, revision)),
        );
        put_back_questions(&mut self.questions, &self.question_backups, turn_id);
        put_back_assets(&mut self.images, &self.image_backups, turn_id);
        put_back_assets(&mut self.artifacts, &self.artifact_backups, turn_id);
        let test = |row: &ToolReportRow| -> (r: bool)
            ensures
                r == (row.turn_id@ == turn_id@),
        { same_text(row.turn_id.as_str(), turn_id) };
        delete_where(
            &mut self.tool_reports,
            test,
            Ghost(|row: ToolReportRow| row.turn_id@ == turn_id@),
        );
        let session = self.turns[at].session_id.clone();
        let own_id = self.turns[at].turn_id.clone();
        put_back_loaded(&mut self.loaded_items, &session, backup.loaded_items);
        keep_prompts(&mut self.prompts, turn_id, &backup.consumed_prompt_ids);
        proof {
            lemma_prompts_kept_ordered(before.prompts@, turn_id@, backup.consumed_prompt_ids@);
        }
        put_back_checkpoint(&mut self.checkpoints, &own_id, backup.checkpoint);
        let turn = &mut self.turns[at];
        turn.user_content = backup.user_content;
        turn.display_content = backup.display_content;
        turn.assistant_content = backup.assistant_content;
        turn.assistant_reasoning = backup.assistant_reasoning;
        turn.assistant_provider_id = backup.assistant_provider_id;
        turn.assistant_model = backup.assistant_model;
        turn.assistant_timestamp = backup.assistant_timestamp;
        turn.status = backup.status;
        turn.tool_reports = backup.tool_reports;
        turn.owner_pid = backup.owner_pid;
        turn.queue_session_id = backup.queue_session_id;
        turn.token_total = backup.token_total;
        turn.token_usage_estimated = backup.token_usage_estimated;
        turn.token_prompt = backup.token_prompt;
        turn.token_cache_read = backup.token_cache_read;
        if turn.revision != i64::MIN {
            turn.revision = turn.revision - 1;
        }
        assert(self.turns@ =~= before.turns@.update(at as int, self.turns@[at as int]));
        restore_followup(
            &mut self.prompts,
            turn_id,
            backup.followup_content,
            backup.followup_display_content,
            backup.followup_context_content,
        );
        proof {
            super::lemma_turn_updated(before.turns@, at as int, self.turns@[at as int]);
            let kept = prompts_kept(before.prompts@, turn_id@, backup.consumed_prompt_ids@);
            let last = last_taken(kept, turn_id@, kept.len() as int);
            lemma_last_taken(kept, turn_id@, kept.len() as int);
            if last >= 0 {
                super::lemma_prompt_updated(kept, last, self.prompts@[last]);
            }
            super::lemma_segments_without(
                before.segments@,
                segments_of(turn_id@, revision),
            );
        }
        Ok(true)
    }
}

pub proof fn lemma_last_taken(prompts: Seq<PromptRow>, turn_id: Seq<char>, n: int)
    requires
        0 <= n <= prompts.len(),
    ensures
        -1 <= last_taken(prompts, turn_id, n) < n,
    decreases n,
{
    if n > 0 {
        lemma_last_taken(prompts, turn_id, n - 1);
    }
}

/// The messages that are kept keep their order.
proof fn lemma_prompts_kept_ordered(
    prompts: Seq<PromptRow>,
    turn_id: Seq<char>,
    original: Seq<String>,
)
    requires
        super::prompts_ordered(prompts),
    ensures
        super::prompts_ordered(prompts_kept(prompts, turn_id, original)),
{
    let chosen = |row: PromptRow| taken_into(row, turn_id) && !text::listed(original, row.prompt_id@);
    let place = table::lemma_without_embeds(prompts, chosen);
    let kept = prompts_kept(prompts, turn_id, original);
    assert forall|i: int, j: int| 0 <= i < j < kept.len() implies #[trigger] kept[i].prompt_id@
        != #[trigger] kept[j].prompt_id@ && kept[i].seq < kept[j].seq by {
        assert(place(i) < place(j));
        assert(prompts[place(i)].prompt_id@ != prompts[place(j)].prompt_id@);
    }
}

// ---------------------------------------------------------------------------
// Laws
// ---------------------------------------------------------------------------

/// A message was taken in by a turn where it was used up and names the turn.
pub proof fn messages_name_the_turn_that_took_them(prompt: &PromptRow, turn_id: &str, taken: bool)
    requires
        call_ensures(is_taken_into, (prompt, turn_id), taken),
    ensures
        taken <==> prompt.status == PromptStatus::Consumed && (prompt.turn_id matches Some(id)
            && id@ == turn_id@),
{
}

/// The backup of a generation that is found is the first of its turn and
/// revision; where none is found there is none.
pub proof fn the_first_backup_is_found(
    backups: &Vec<BackupRow>,
    turn_id: &str,
    revision: i64,
    at: Option<usize>,
    k: int,
)
    requires
        call_ensures(find_backup, (backups, turn_id, revision), at),
        0 <= k < backups@.len(),
        backups@[k].turn_id@ == turn_id@,
        backups@[k].revision == revision,
    ensures
        at matches Some(i) && i <= k && backups@[i as int].turn_id@ == turn_id@
            && backups@[i as int].revision == revision,
{
    lemma_first_backup(backups@, turn_id@, revision, k, backups@.len() as int);
}

proof fn lemma_first_backup(
    backups: Seq<BackupRow>,
    turn_id: Seq<char>,
    revision: i64,
    k: int,
    n: int,
)
    requires
        0 <= k < n <= backups.len(),
        backups[k].turn_id@ == turn_id,
        backups[k].revision == revision,
    ensures
        0 <= backup_index(backups, turn_id, revision, n) <= k,
    decreases n,
{
    if k < n - 1 {
        lemma_first_backup(backups, turn_id, revision, k, n - 1);
    } else {
        lemma_backup_within(backups, turn_id, revision, n - 1);
    }
}

proof fn lemma_backup_within(backups: Seq<BackupRow>, turn_id: Seq<char>, revision: i64, n: int)
    requires
        0 <= n <= backups.len(),
    ensures
        -1 <= backup_index(backups, turn_id, revision, n) < n || n == 0 && backup_index(
            backups,
            turn_id,
            revision,
            n,
        ) == -1,
    decreases n,
{
    if n > 0 {
        lemma_backup_within(backups, turn_id, revision, n - 1);
    }
}

} // verus!
