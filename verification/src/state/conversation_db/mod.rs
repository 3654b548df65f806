//! The conversations of an account.
//!
//! The tables are held as lists of rows. Rows stand in the order in which they
//! were inserted, except that the turns of a session stand in the order of
//! their numbers, the segments of a journal in the order of their indices and
//! the queued messages in the order of theirs.

use vstd::prelude::*;

use crate::table;
use crate::text::same_text;

pub mod audit;
pub mod cache_breaks;
pub mod checks;
pub mod held_reports;
pub mod journal;
pub mod metrics;
pub mod open;
pub mod pages;
pub mod projection;
pub mod queue;
pub mod recovery;
pub mod redo;
pub mod removal;
pub mod restart;
pub mod rows;
pub mod running;
pub mod session_state;
pub mod skill_catalog;
pub mod turn_laws;
pub mod turns;

use rows::{
    AssetRow, AttachmentRow, BackupRow, CheckpointRow, EventRow, FootprintRow, LoadedItemRow, PromptRow,
    QuestionRow, ReplayRow, SegmentRow, SessionRow, ToolReportRow, TurnRow,
};

use cache_breaks::CacheBreakRow;
use held_reports::HeldJobReport;
use session_state::SessionTables;
use skill_catalog::SkillCatalogRow;

verus! {

/// The conversations of an account.
#[derive(Debug)]
pub struct ConversationDb {
    pub sessions: Vec<SessionRow>,
    pub turns: Vec<TurnRow>,
    pub segments: Vec<SegmentRow>,
    pub events: Vec<EventRow>,
    pub prompts: Vec<PromptRow>,
    pub questions: Vec<QuestionRow>,
    pub images: Vec<AssetRow>,
    pub artifacts: Vec<AssetRow>,
    pub tool_reports: Vec<ToolReportRow>,
    pub footprints: Vec<FootprintRow>,
    pub loaded_items: Vec<LoadedItemRow>,
    pub attachments: Vec<AttachmentRow>,
    pub replays: Vec<ReplayRow>,
    pub checkpoints: Vec<CheckpointRow>,
    pub backups: Vec<BackupRow>,
    pub question_backups: Vec<QuestionRow>,
    pub image_backups: Vec<AssetRow>,
    pub artifact_backups: Vec<AssetRow>,
    pub state: SessionTables,
    pub cache_breaks: Vec<CacheBreakRow>,
    pub held_reports: Vec<HeldJobReport>,
    /// The number of the last report that was kept.
    pub last_held_id: i64,
    pub skill_catalogs: Vec<SkillCatalogRow>,
}

/// No two turns have the same id, and the turns of a session stand in the
/// order of their numbers.
pub open spec fn turns_ordered(turns: Seq<TurnRow>) -> bool {
    &&& forall|i: int, j: int|
        0 <= i < j < turns.len() ==> #[trigger] turns[i].turn_id@ != #[trigger] turns[j].turn_id@
    &&& forall|i: int, j: int|
        0 <= i < j < turns.len() && #[trigger] turns[i].session_id@
            == #[trigger] turns[j].session_id@ ==> turns[i].seq < turns[j].seq
}

/// The segments of a generation stand in the order of their indices.
pub open spec fn segments_ordered(segments: Seq<SegmentRow>) -> bool {
    forall|i: int, j: int|
        0 <= i < j < segments.len() && #[trigger] segments[i].turn_id@
            == #[trigger] segments[j].turn_id@ && segments[i].revision == segments[j].revision
            ==> segments[i].segment_index < segments[j].segment_index
}

/// No two queued messages have the same id, and they stand in the order of
/// their numbers.
pub open spec fn prompts_ordered(prompts: Seq<PromptRow>) -> bool {
    forall|i: int, j: int|
        0 <= i < j < prompts.len() ==> #[trigger] prompts[i].prompt_id@
            != #[trigger] prompts[j].prompt_id@ && prompts[i].seq < prompts[j].seq
}

impl ConversationDb {
    /// What holds of the tables between calls.
    pub open spec fn wf(&self) -> bool {
        &&& turns_ordered(self.turns@)
        &&& segments_ordered(self.segments@)
        &&& prompts_ordered(self.prompts@)
    }

    /// Where turn `turn_id` stands, and -1 where it does not.
    pub open spec fn turn_at(&self, turn_id: Seq<char>) -> int {
        turn_index(self.turns@, turn_id)
    }

    /// A database without a session.
    pub fn new() -> (db: Self)
        ensures
            db.wf(),
            db.sessions@.len() == 0,
            db.turns@.len() == 0,
            db.segments@.len() == 0,
            db.events@.len() == 0,
            db.prompts@.len() == 0,
            db.questions@.len() == 0,
            db.images@.len() == 0,
            db.artifacts@.len() == 0,
            db.tool_reports@.len() == 0,
            db.footprints@.len() == 0,
            db.loaded_items@.len() == 0,
            db.attachments@.len() == 0,
            db.replays@.len() == 0,
            db.checkpoints@.len() == 0,
            db.backups@.len() == 0,
            db.question_backups@.len() == 0,
            db.image_backups@.len() == 0,
            db.artifact_backups@.len() == 0,
            db.state.values@.len() == 0,
            db.state.imports@.len() == 0,
            db.state.history@.len() == 0,
            db.cache_breaks@.len() == 0,
            db.held_reports@.len() == 0,
            db.last_held_id == 0,
            db.skill_catalogs@.len() == 0,
    {
        ConversationDb {
            sessions: Vec::new(),
            turns: Vec::new(),
            segments: Vec::new(),
            events: Vec::new(),
            prompts: Vec::new(),
            questions: Vec::new(),
            images: Vec::new(),
            artifacts: Vec::new(),
            tool_reports: Vec::new(),
            footprints: Vec::new(),
            loaded_items: Vec::new(),
            attachments: Vec::new(),
            replays: Vec::new(),
            checkpoints: Vec::new(),
            backups: Vec::new(),
            question_backups: Vec::new(),
            image_backups: Vec::new(),
            artifact_backups: Vec::new(),
            state: SessionTables::new(),
            cache_breaks: Vec::new(),
            held_reports: Vec::new(),
            last_held_id: 0,
            skill_catalogs: Vec::new(),
        }
    }
}

/// Where turn `turn_id` stands in `turns`, and -1 where it does not.
pub open spec fn turn_index(turns: Seq<TurnRow>, turn_id: Seq<char>) -> int {
    if exists|i: int| is_turn_at(turns, turn_id, i) {
        choose|i: int| is_turn_at(turns, turn_id, i)
    } else {
        -1
    }
}

/// Whether row `i` of `turns` is turn `turn_id`.
pub open spec fn is_turn_at(turns: Seq<TurnRow>, turn_id: Seq<char>, i: int) -> bool {
    0 <= i < turns.len() && turns[i].turn_id@ == turn_id
}

/// Where a turn stands.
pub fn find_turn(turns: &Vec<TurnRow>, turn_id: &str) -> (at: Option<usize>)
    requires
        turns_ordered(turns@),
    ensures
        match at {
            Some(i) => i < turns.len() && turn_index(turns@, turn_id@) == i && turns@[i as int].turn_id@
                == turn_id@,
            None => turn_index(turns@, turn_id@) == -1 && forall|i: int|
                0 <= i < turns@.len() ==> (#[trigger] turns@[i]).turn_id@ != turn_id@,
        },
{
    let mut i: usize = 0;
    while i < turns.len()
        invariant
            i <= turns@.len(),
            turns_ordered(turns@),
            forall|k: int| 0 <= k < i ==> (#[trigger] turns@[k]).turn_id@ != turn_id@,
        decreases turns@.len() - i,
    {
        if same_text(turns[i].turn_id.as_str(), turn_id) {
            assert(is_turn_at(turns@, turn_id@, i as int));
            return Some(i);
        }
        i += 1;
    }
    None
}

/// Deleting segments keeps the others in order.
pub proof fn lemma_segments_without(segments: Seq<SegmentRow>, chosen: spec_fn(SegmentRow) -> bool)
    requires
        segments_ordered(segments),
    ensures
        segments_ordered(table::without(segments, chosen)),
{
    let place = table::lemma_without_embeds(segments, chosen);
    let kept = table::without(segments, chosen);
    assert forall|i: int, j: int|
        0 <= i < j < kept.len() && #[trigger] kept[i].turn_id@ == #[trigger] kept[j].turn_id@
            && kept[i].revision == kept[j].revision implies kept[i].segment_index
        < kept[j].segment_index by {
        assert(place(i) < place(j));
        assert(segments[place(i)].turn_id@ == segments[place(j)].turn_id@);
    }
}

/// A turn is found where it stands.
pub proof fn lemma_turn_at(turns: Seq<TurnRow>, turn_id: Seq<char>, i: int)
    requires
        turns_ordered(turns),
        0 <= i < turns.len(),
        turns[i].turn_id@ == turn_id,
    ensures
        turn_index(turns, turn_id) == i,
{
    assert(is_turn_at(turns, turn_id, i));
    let k = turn_index(turns, turn_id);
    assert(is_turn_at(turns, turn_id, k));
    if k < i {
        assert(turns[k].turn_id@ != turns[i].turn_id@);
    } else if i < k {
        assert(turns[i].turn_id@ != turns[k].turn_id@);
    }
}

/// Changing a turn but for its id, session and number keeps the order.
pub proof fn lemma_turn_updated(turns: Seq<TurnRow>, at: int, turn: TurnRow)
    requires
        turns_ordered(turns),
        0 <= at < turns.len(),
        turn.turn_id == turns[at].turn_id,
        turn.session_id == turns[at].session_id,
        turn.seq == turns[at].seq,
    ensures
        turns_ordered(turns.update(at, turn)),
{
    let after = turns.update(at, turn);
    assert(after.len() == turns.len());
    assert forall|i: int, j: int| 0 <= i < j < after.len() implies #[trigger] after[i].turn_id@
        != #[trigger] after[j].turn_id@ by {
        assert(turns[i].turn_id@ != turns[j].turn_id@);
    }
    assert forall|i: int, j: int|
        0 <= i < j < after.len() && #[trigger] after[i].session_id@
            == #[trigger] after[j].session_id@ implies after[i].seq < after[j].seq by {
        assert(turns[i].session_id@ == turns[j].session_id@);
    }
}

/// Changing a message but for its id and number keeps the order.
pub proof fn lemma_prompt_updated(prompts: Seq<PromptRow>, at: int, prompt: PromptRow)
    requires
        prompts_ordered(prompts),
        0 <= at < prompts.len(),
        prompt.prompt_id == prompts[at].prompt_id,
        prompt.seq == prompts[at].seq,
    ensures
        prompts_ordered(prompts.update(at, prompt)),
{
    let after = prompts.update(at, prompt);
    assert(after.len() == prompts.len());
    assert forall|i: int, j: int| 0 <= i < j < after.len() implies #[trigger] after[i].prompt_id@
        != #[trigger] after[j].prompt_id@ && after[i].seq < after[j].seq by {
        assert(prompts[i].prompt_id@ != prompts[j].prompt_id@ && prompts[i].seq < prompts[j].seq);
        assert(after[i].prompt_id == prompts[i].prompt_id && after[i].seq == prompts[i].seq);
        assert(after[j].prompt_id == prompts[j].prompt_id && after[j].seq == prompts[j].seq);
    }
    assert(prompts_ordered(after));
}

} // verus!
