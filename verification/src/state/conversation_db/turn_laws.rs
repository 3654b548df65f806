//! What the changes to turns do, row by row.

use vstd::prelude::*;

use crate::json;
use crate::table;
use crate::text;

use super::rows::{
    AssetRow, AttachmentRow, BackupRow, CheckpointRow, DbError, EventRow, LoadedItemRow, PromptRow,
    QuestionRow, ReplayEntry, ReplayRow, SegmentRow, SegmentStatus, SessionRow, Stamp,
    ToolReportRow, TurnRow, TurnStatus, TurnTokens,
};
use super::turns::{Answer, NewTurn};
use super::{projection, queue, redo, turns, ConversationDb};

verus! {

// ---------------------------------------------------------------------------
// Beginning
// ---------------------------------------------------------------------------

/// A turn that begins stands behind all others as it was asked for, running and
/// with nothing used. Its number is one above the highest of its session, or 1
/// where it is the first. All other turns stay as they are.
pub proof fn a_new_turn_stands_last(
    before: ConversationDb,
    after: ConversationDb,
    new: NewTurn,
    run: Option<Seq<char>>,
    now: String,
    other: int,
)
    requires
        before.wf(),
        turns::started(before, after, new, run, now, Ok(())),
        0 <= other < before.turns@.len(),
    ensures
        ({
            let row = after.turns@[before.turns@.len() as int];
            let mate = before.turns@[other];
            &&& after.turns@.len() == before.turns@.len() + 1
            &&& after.turns@[other] == mate
            &&& row.turn_id == new.turn_id && row.session_id == new.session_id
            &&& row.user_content == new.user_content && row.display_content == new.display_content
            &&& row.assistant_content == new.placeholder && row.user_timestamp == now
            &&& row.assistant_reasoning is None && row.assistant_timestamp is None
            &&& row.assistant_provider_id is None && row.assistant_model is None
            &&& row.status is Running && row.revision == 0 && !row.hidden && !row.is_summary
            &&& row.owner_pid == Some(new.owner_pid as i64)
            &&& row.queue_session_id == Some(new.queue_session_id) && row.workspace
                == new.workspace
            &&& row.token_total == 0 && row.token_prompt == 0 && row.token_cache_read == 0
            &&& row.generation_tokens == 0 && row.generation_ms == 0
            &&& row.token_context_end is None && !row.token_usage_estimated && row.tool_flow is None
            &&& mate.session_id@ == new.session_id@ ==> row.seq > mate.seq
            &&& mate.session_id@ == new.session_id@ && (forall|k: int|
                0 <= k < before.turns@.len() && (#[trigger] before.turns@[k]).session_id@
                    == new.session_id@ ==> before.turns@[k].seq <= mate.seq) ==> row.seq == mate.seq
                + 1
            &&& mate.turn_id@ != new.turn_id@
        }),
{
    let n = before.turns@.len() as int;
    assert(after.turns@.drop_last()[other] == before.turns@[other]);
    turns::lemma_last_turn(before.turns@, new.session_id@, n);
    let at = turns::last_turn(before.turns@, new.session_id@, n);
    if before.turns@[other].turn_id@ == new.turn_id@ {
        super::lemma_turn_at(before.turns@, new.turn_id@, other);
    }
    if before.turns@[other].session_id@ == new.session_id@ && other < at {
        assert(before.turns@[other].seq < before.turns@[at].seq);
    }
}

/// The first turn of a session is number 1.
pub proof fn the_first_turn_is_the_first(
    before: ConversationDb,
    after: ConversationDb,
    new: NewTurn,
    run: Option<Seq<char>>,
    now: String,
)
    requires
        turns::started(before, after, new, run, now, Ok(())),
        forall|k: int|
            0 <= k < before.turns@.len() ==> (#[trigger] before.turns@[k]).session_id@
                != new.session_id@,
    ensures
        after.turns@.last().seq == 1,
{
    turns::lemma_last_turn(before.turns@, new.session_id@, before.turns@.len() as int);
}

/// A turn begins exactly where its id is new, its session is there and there is
/// a number for it. Where it does not, nothing changes.
pub proof fn turns_begin_where_they_can(
    before: ConversationDb,
    after: ConversationDb,
    new: NewTurn,
    run: Option<Seq<char>>,
    now: String,
    done: Result<(), DbError>,
    i: int,
)
    requires
        before.wf(),
        turns::started(before, after, new, run, now, done),
    ensures
        done is Err ==> after == before,
        0 <= i < before.turns@.len() && before.turns@[i].turn_id@ == new.turn_id@ ==> done == Err::<
            (),
            DbError,
        >(DbError::DuplicateTurn),
        0 <= i < before.segments@.len() && before.segments@[i].turn_id@ == new.turn_id@ ==> done
            == Err::<(), DbError>(DbError::DuplicateTurn),
        (forall|s: int|
            0 <= s < before.sessions@.len() ==> (#[trigger] before.sessions@[s]).session_id@
                != new.session_id@) ==> done is Err,
        (forall|k: int|
            0 <= k < before.turns@.len() ==> (#[trigger] before.turns@[k]).turn_id@ != new.turn_id@)
            && (forall|k: int|
            0 <= k < before.segments@.len() ==> (#[trigger] before.segments@[k]).turn_id@
                != new.turn_id@) && 0 <= i < before.sessions@.len()
            && before.sessions@[i].session_id@ == new.session_id@ && (forall|k: int|
            0 <= k < before.turns@.len() && (#[trigger] before.turns@[k]).session_id@
                == new.session_id@ ==> before.turns@[k].seq < i64::MAX) ==> done is Ok,
{
    if 0 <= i < before.turns@.len() && before.turns@[i].turn_id@ == new.turn_id@ {
        super::lemma_turn_at(before.turns@, new.turn_id@, i);
    }
    let n = before.turns@.len() as int;
    turns::lemma_last_turn(before.turns@, new.session_id@, n);
    let k = before.turn_at(new.turn_id@);
    if k >= 0 {
        assert(super::is_turn_at(before.turns@, new.turn_id@, k));
    }
    let at = turns::last_turn(before.turns@, new.session_id@, n);
    if at >= 0 {
        assert(before.turns@[at].session_id@ == new.session_id@);
    }
}

/// A turn that begins opens its journal with one running stretch, and takes
/// over the files that were attached to the run that started it, and no others.
pub proof fn a_new_turn_has_its_journal(
    before: ConversationDb,
    after: ConversationDb,
    new: NewTurn,
    run: Option<Seq<char>>,
    now: String,
    a: int,
)
    requires
        turns::started(before, after, new, run, now, Ok(())),
        0 <= a < before.attachments@.len(),
    ensures
        ({
            let segment = after.segments@.last();
            let file = before.attachments@[a];
            let own = run is Some && file.session_id@ == new.session_id@ && file.run_id is Some
                && file.run_id->0@ == run->0;
            &&& after.segments@.len() == before.segments@.len() + 1
            &&& after.segments@.drop_last() == before.segments@
            &&& segment.turn_id == new.turn_id && segment.revision == 0 && segment.segment_index
                == 0
            &&& segment.status is Running && segment.started_at == now && segment.finished_at
                is None
            &&& after.attachments@.len() == before.attachments@.len()
            &&& own ==> after.attachments@[a] == (AttachmentRow {
                run_id: None,
                turn_id: Some(new.turn_id),
                ..file
            })
            &&& !own ==> after.attachments@[a] == file
            &&& after.events == before.events && after.prompts == before.prompts
            &&& after.sessions == before.sessions && after.replays == before.replays
        }),
{
    assert(after.segments@.drop_last() =~= before.segments@);
}

// ---------------------------------------------------------------------------
// Ending
// ---------------------------------------------------------------------------

/// Whether turn `at` of `turns` was given another number, or the same, with
/// everything else as it is and all other rows in place: only a turn at its
/// first revision that a later one of its session has outrun gets one, and that
/// is one above all others of the session.
pub open spec fn only_renumbered(before: Seq<TurnRow>, at: int, row: TurnRow, after: Seq<TurnRow>) -> bool {
    let outrun = row.revision == 0 && exists|j: int|
        at < j < before.len() && (#[trigger] before[j]).session_id@ == row.session_id@
            && before[j].status !is Running;
    &&& after.len() == before.len()
    &&& exists|h: int|
        {
            &&& 0 <= h < after.len()
            &&& #[trigger] after[h] == (TurnRow { seq: after[h].seq, ..row })
            &&& !outrun ==> after[h].seq == row.seq && h == at
            &&& outrun ==> forall|j: int|
                0 <= j < before.len() && j != at && (#[trigger] before[j]).session_id@
                    == row.session_id@ ==> after[h].seq > before[j].seq
        }
    &&& forall|j: int|
        0 <= j < before.len() && j != at ==> after.contains(#[trigger] before[j])
    &&& !outrun ==> forall|j: int|
        0 <= j < before.len() && j != at ==> after[j] == #[trigger] before[j]
}

proof fn lemma_bumped_rows(before: Seq<TurnRow>, at: int, row: TurnRow)
    requires
        super::turns_ordered(before),
        0 <= at < before.len(),
        row.turn_id == before[at].turn_id,
        row.session_id == before[at].session_id,
        row.seq == before[at].seq,
        !turns::cannot_bump(before.update(at, row), at),
    ensures
        only_renumbered(before, at, row, turns::bumped(before.update(at, row), at)),
{
    let mid = before.update(at, row);
    let after = turns::bumped(mid, at);
    let n = mid.len() as int;
    assert forall|j: int| 0 <= j < n && j != at implies #[trigger] mid[j] == before[j] by {}
    turns::lemma_last_turn(mid, row.session_id@, n);
    let last = turns::last_turn(mid, row.session_id@, n);
    if turns::overtaken(mid, at) {
        let w = choose|j: int|
            at < j < mid.len() && (#[trigger] mid[j]).session_id@ == mid[at].session_id@
                && mid[j].status != TurnStatus::Running;
        assert(before[w].session_id@ == row.session_id@ && before[w].status !is Running);
        let h = n - 1;
        assert(after[h].seq == turns::latest_seq(mid, row.session_id@) + 1);
        assert(after[h] == (TurnRow { seq: after[h].seq, ..row }));
        assert forall|j: int|
            0 <= j < before.len() && j != at && (#[trigger] before[j]).session_id@
                == row.session_id@ implies after[h].seq > before[j].seq by {
            assert(mid[j] == before[j]);
            assert(j <= last);
            assert(last > at);
            if j < last {
                assert(before[j].seq < before[last].seq);
            }
            assert(mid[last] == before[last]);
        }
        assert forall|j: int| 0 <= j < before.len() && j != at implies after.contains(
            #[trigger] before[j],
        ) by {
            if j < at {
                assert(after[j] == before[j]);
            } else {
                assert(after[j - 1] == before[j]);
            }
        }
    } else {
        if row.revision == 0 && exists|j: int|
            at < j < before.len() && (#[trigger] before[j]).session_id@ == row.session_id@
                && before[j].status !is Running {
            let w = choose|j: int|
                at < j < before.len() && (#[trigger] before[j]).session_id@ == row.session_id@
                    && before[j].status !is Running;
            assert(mid[w].session_id@ == mid[at].session_id@);
            assert(turns::later_ended(mid, at));
        }
        assert(after[at] == (TurnRow { seq: after[at].seq, ..row }));
        assert forall|j: int| 0 <= j < before.len() && j != at implies after.contains(
            #[trigger] before[j],
        ) by {
            assert(after[j] == before[j]);
        }
    }
}

/// Whether a session is marked as used at `secs` or later, and every other one
/// stays as it is.
pub open spec fn only_touched(
    before: Seq<SessionRow>,
    after: Seq<SessionRow>,
    session: Seq<char>,
    secs: i64,
) -> bool {
    &&& after.len() == before.len()
    &&& forall|s: int|
        0 <= s < before.len() ==> if (#[trigger] before[s]).session_id@ == session {
            &&& after[s] == (SessionRow { last_request_at: after[s].last_request_at, ..before[s] })
            &&& after[s].last_request_at matches Some(mark) && mark >= secs && (
            before[s].last_request_at matches Some(old) ==> mark >= old) && (mark == secs
                || before[s].last_request_at == Some(mark) || mark == 0 && before[s].last_request_at
                is None)
        } else {
            after[s] == before[s]
        }
}

proof fn lemma_touched(sessions: Seq<SessionRow>, session: Seq<char>, secs: i64)
    ensures
        only_touched(sessions, turns::touched(sessions, session, secs), session, secs),
{
}

/// Whether what a turn showed is kept, in place of what was kept of it before,
/// and what others showed stays. Nothing changes where it showed nothing.
pub open spec fn only_kept(
    before: Seq<ReplayRow>,
    after: Seq<ReplayRow>,
    turn_id: Seq<char>,
    snapshot: Option<Vec<ReplayEntry>>,
) -> bool {
    match snapshot {
        Some(entries) => {
            &&& after.len() > 0
            &&& after.last().turn_id@ == turn_id && after.last().entries == entries
            &&& table::is_rest(before, after.drop_last(), |row: ReplayRow| row.turn_id@ == turn_id)
        },
        None => after == before,
    }
}

proof fn lemma_kept(replays: Seq<ReplayRow>, turn_id: String, snapshot: Option<Vec<ReplayEntry>>)
    ensures
        only_kept(replays, turns::with_snapshot(replays, turn_id, snapshot), turn_id@, snapshot),
{
    if snapshot is Some {
        let gone = |row: ReplayRow| row.turn_id@ == turn_id@;
        table::lemma_rest(replays, gone, gone);
        assert(turns::with_snapshot(replays, turn_id, snapshot).drop_last() =~= table::without(
            replays,
            gone,
        ));
    }
}

/// Completing a running turn writes the answer into it, as it was given, and
/// changes nothing else of it but its number where it was outrun. What it
/// showed is kept, its journal is gone, and its session was used.
pub proof fn completing_writes_the_answer(
    before: ConversationDb,
    after: ConversationDb,
    turn_id: Seq<char>,
    answer: Answer,
    snapshot: Option<Vec<ReplayEntry>>,
    now: Stamp,
    i: int,
)
    requires
        before.wf(),
        turns::completion(before, after, turn_id, answer, snapshot, now, Ok(())),
        0 <= i < before.turns@.len(),
        before.turns@[i].turn_id@ == turn_id,
        answer.tokens.total <= i64::MAX && answer.tokens.prompt <= i64::MAX
            && answer.tokens.cache_read <= i64::MAX,
    ensures
        before.turns@[i].status is Running,
        exists|row: TurnRow|
            {
                &&& #[trigger] only_renumbered(before.turns@, i, row, after.turns@)
                &&& row == (TurnRow {
                    assistant_content: answer.content,
                    assistant_reasoning: answer.reasoning,
                    assistant_provider_id: answer.provider_id,
                    assistant_model: answer.model,
                    assistant_timestamp: Some(now.text),
                    status: TurnStatus::Completed,
                    token_total: row.token_total,
                    token_prompt: row.token_prompt,
                    token_cache_read: row.token_cache_read,
                    token_usage_estimated: answer.estimated,
                    ..before.turns@[i]
                })
                &&& row.token_total == answer.tokens.total && row.token_prompt
                    == answer.tokens.prompt && row.token_cache_read == answer.tokens.cache_read
            },
        only_kept(before.replays@, after.replays@, turn_id, snapshot),
        table::is_rest(
            before.segments@,
            after.segments@,
            |row: SegmentRow| row.turn_id@ == turn_id,
        ),
        table::is_rest(before.events@, after.events@, |row: EventRow| row.turn_id@ == turn_id),
        only_touched(before.sessions@, after.sessions@, before.turns@[i].session_id@, now.secs),
        after.prompts == before.prompts && after.backups == before.backups && after.questions
            == before.questions,
{
    super::lemma_turn_at(before.turns@, turn_id, i);
    let turn = before.turns@[i];
    let row = turns::answered(turn, answer, now.text);
    lemma_bumped_rows(before.turns@, i, row);
    lemma_kept(before.replays@, turn.turn_id, snapshot);
    lemma_touched(before.sessions@, turn.session_id@, now.secs);
    let segments = |row: SegmentRow| row.turn_id@ == turn_id;
    let events = |row: EventRow| row.turn_id@ == turn_id;
    table::lemma_rest_of(before.segments@, after.segments@, segments);
    table::lemma_rest_of(before.events@, after.events@, events);
}

/// Completing is turned down exactly where the turn is not running or there is
/// no number for it, and then changes nothing.
pub proof fn only_running_turns_are_completed(
    before: ConversationDb,
    after: ConversationDb,
    turn_id: Seq<char>,
    answer: Answer,
    snapshot: Option<Vec<ReplayEntry>>,
    now: Stamp,
    done: Result<(), DbError>,
    i: int,
)
    requires
        before.wf(),
        turns::completion(before, after, turn_id, answer, snapshot, now, done),
    ensures
        done is Err ==> after == before,
        0 <= i < before.turns@.len() && before.turns@[i].turn_id@ == turn_id
            && before.turns@[i].status !is Running ==> done == Err::<(), DbError>(
            DbError::TurnChanged,
        ),
        (forall|k: int|
            0 <= k < before.turns@.len() ==> (#[trigger] before.turns@[k]).turn_id@ != turn_id)
            ==> done == Err::<(), DbError>(DbError::TurnChanged),
        0 <= i < before.turns@.len() && before.turns@[i].turn_id@ == turn_id
            && before.turns@[i].status is Running && (forall|k: int|
            0 <= k < before.turns@.len() && (#[trigger] before.turns@[k]).session_id@
                == before.turns@[i].session_id@ ==> before.turns@[k].seq < i64::MAX) ==> done is Ok,
{
    if 0 <= i < before.turns@.len() && before.turns@[i].turn_id@ == turn_id {
        super::lemma_turn_at(before.turns@, turn_id, i);
        let ended = before.turns@.update(i, turns::answered(before.turns@[i], answer, now.text));
        let session = before.turns@[i].session_id@;
        turns::lemma_last_turn(ended, session, ended.len() as int);
        let last = turns::last_turn(ended, session, ended.len() as int);
        if last >= 0 {
            assert(ended[last].seq == before.turns@[last].seq && ended[last].session_id@
                == before.turns@[last].session_id@);
            let mate = before.turns@[last];
        }
    } else {
        let k = before.turn_at(turn_id);
        if k >= 0 {
            assert(super::is_turn_at(before.turns@, turn_id, k));
            let mate = before.turns@[k];
        }
    }
}

/// Whether `row` is what becomes of an interrupted turn: what it had said is
/// its answer, and what it used is written only where there is an account.
pub open spec fn is_cut_off(turn: TurnRow, row: TurnRow, tokens: TurnTokens, now: String) -> bool {
    &&& row == (TurnRow {
        assistant_content: row.assistant_content,
        assistant_reasoning: row.assistant_reasoning,
        assistant_timestamp: Some(now),
        status: TurnStatus::Interrupted,
        token_total: row.token_total,
        token_prompt: row.token_prompt,
        token_cache_read: row.token_cache_read,
        ..turn
    })
    &&& tokens.total == 0 && tokens.prompt == 0 ==> row.token_total == turn.token_total
        && row.token_prompt == turn.token_prompt && row.token_cache_read == turn.token_cache_read
    &&& tokens.total > 0 || tokens.prompt > 0 ==> (tokens.total <= i64::MAX ==> row.token_total
        == tokens.total) && (tokens.prompt <= i64::MAX ==> row.token_prompt == tokens.prompt) && (
    tokens.cache_read <= i64::MAX ==> row.token_cache_read == tokens.cache_read)
}

/// Whether the running stretches of a generation were closed as interrupted,
/// and all others stay as they are.
pub open spec fn only_closed(
    before: Seq<SegmentRow>,
    after: Seq<SegmentRow>,
    turn_id: Seq<char>,
    revision: i64,
    now: String,
) -> bool {
    &&& after.len() == before.len()
    &&& forall|s: int|
        0 <= s < before.len() ==> if (#[trigger] before[s]).turn_id@ == turn_id
            && before[s].revision == revision && before[s].status is Running {
            after[s] == (SegmentRow {
                status: SegmentStatus::Interrupted,
                finished_at: Some(now),
                ..before[s]
            })
        } else {
            after[s] == before[s]
        }
}

/// Stopping a running turn writes what it had said as its answer, as an
/// interrupted one. What it showed is kept, its journal is closed and stays,
/// and its session was used.
pub proof fn stopping_keeps_what_was_said(
    before: ConversationDb,
    after: ConversationDb,
    turn_id: Seq<char>,
    tokens: TurnTokens,
    snapshot: Option<Vec<ReplayEntry>>,
    now: Stamp,
    i: int,
)
    requires
        before.wf(),
        turns::stopped(before, after, turn_id, tokens, snapshot, now, Ok(())),
        0 <= i < before.turns@.len(),
        before.turns@[i].turn_id@ == turn_id,
        before.turns@[i].status is Running,
    ensures
        exists|row: TurnRow|
            {
                let said = projection::interrupted_answer(
                    before.segments@,
                    before.events@,
                    turn_id,
                    before.turns@[i].revision,
                );
                &&& #[trigger] only_renumbered(before.turns@, i, row, after.turns@)
                &&& is_cut_off(before.turns@[i], row, tokens, now.text)
                &&& row.assistant_content@ == said.0
                &&& row.assistant_reasoning is Some <==> said.1 is Some
                &&& row.assistant_reasoning matches Some(thought) ==> said.1 == Some(thought@)
            },
        only_kept(before.replays@, after.replays@, turn_id, snapshot),
        only_closed(
            before.segments@,
            after.segments@,
            turn_id,
            before.turns@[i].revision,
            now.text,
        ),
        only_touched(before.sessions@, after.sessions@, before.turns@[i].session_id@, now.secs),
        after.events == before.events && after.prompts == before.prompts && after.backups
            == before.backups,
{
    super::lemma_turn_at(before.turns@, turn_id, i);
    let turn = before.turns@[i];
    let answer = projection::interrupted_answer(
        before.segments@,
        before.events@,
        turn_id,
        turn.revision,
    );
    let row = choose|row: TurnRow|
        #[trigger] turns::cut_off(turn, row, answer, tokens, now.text) && after.turns@
            == turns::bumped(before.turns@.update(i, row), i);
    lemma_stuck_alike(before.turns@, i, row);
    lemma_bumped_rows(before.turns@, i, row);
    lemma_kept(before.replays@, turn.turn_id, snapshot);
    lemma_touched(before.sessions@, turn.session_id@, now.secs);
}

/// What is written into a turn does not change whether it can be moved.
proof fn lemma_stuck_alike(before: Seq<TurnRow>, at: int, row: TurnRow)
    requires
        0 <= at < before.len(),
        row.session_id == before[at].session_id,
        row.seq == before[at].seq,
        row.revision == before[at].revision,
    ensures
        turns::cannot_bump(before.update(at, row), at) ==> turns::cannot_bump(before, at),
{
    let mid = before.update(at, row);
    let session = row.session_id@;
    let n = before.len() as int;
    turns::lemma_last_turn(before, session, n);
    turns::lemma_last_turn(mid, session, n);
    let a = turns::last_turn(before, session, n);
    let b = turns::last_turn(mid, session, n);
    if a < b {
        assert(before[b].session_id@ != session);
        assert(mid[b].session_id@ == session);
    }
    if b < a {
        assert(mid[a].session_id@ != session);
    }
    if turns::later_ended(mid, at) {
        let j = choose|j: int|
            at < j < mid.len() && (#[trigger] mid[j]).session_id@ == mid[at].session_id@
                && mid[j].status != TurnStatus::Running;
        assert(before[j] == mid[j]);
    }
}

/// Stopping a turn that is not running changes nothing.
pub proof fn only_running_turns_are_stopped(
    before: ConversationDb,
    after: ConversationDb,
    turn_id: Seq<char>,
    tokens: TurnTokens,
    snapshot: Option<Vec<ReplayEntry>>,
    now: Stamp,
    done: Result<(), DbError>,
    i: int,
)
    requires
        before.wf(),
        turns::stopped(before, after, turn_id, tokens, snapshot, now, done),
    ensures
        done is Err ==> after == before,
        0 <= i < before.turns@.len() && before.turns@[i].turn_id@ == turn_id
            && before.turns@[i].status !is Running ==> done is Ok && after == before,
        (forall|k: int|
            0 <= k < before.turns@.len() ==> (#[trigger] before.turns@[k]).turn_id@ != turn_id)
            ==> done is Ok && after == before,
{
    if 0 <= i < before.turns@.len() && before.turns@[i].turn_id@ == turn_id {
        super::lemma_turn_at(before.turns@, turn_id, i);
    }
    let k = before.turn_at(turn_id);
    if k >= 0 {
        assert(super::is_turn_at(before.turns@, turn_id, k));
        let mate = before.turns@[k];
    }
}

/// Completing a redo writes the answer in place: the turn keeps its number, all
/// other turns stay, and the backup of that revision is gone, as is what the
/// turn showed before.
pub proof fn a_redo_is_completed_in_place(
    before: ConversationDb,
    after: ConversationDb,
    turn_id: Seq<char>,
    revision: i64,
    answer: Answer,
    snapshot: Option<Vec<ReplayEntry>>,
    now: Stamp,
    i: int,
)
    requires
        before.wf(),
        turns::redo_completion(before, after, turn_id, revision, answer, snapshot, now, Ok(())),
        0 <= i < before.turns@.len(),
        before.turns@[i].turn_id@ == turn_id,
    ensures
        before.turns@[i].status is Running && before.turns@[i].revision == revision,
        after.turns@.len() == before.turns@.len(),
        forall|j: int|
            0 <= j < before.turns@.len() && j != i ==> after.turns@[j]
                == #[trigger] before.turns@[j],
        ({
            let row = after.turns@[i];
            &&& row == (TurnRow {
                assistant_content: answer.content,
                assistant_reasoning: answer.reasoning,
                assistant_provider_id: answer.provider_id,
                assistant_model: answer.model,
                assistant_timestamp: Some(now.text),
                status: TurnStatus::Completed,
                token_total: row.token_total,
                token_prompt: row.token_prompt,
                token_cache_read: row.token_cache_read,
                token_usage_estimated: answer.estimated,
                ..before.turns@[i]
            })
            &&& answer.tokens.total <= i64::MAX ==> row.token_total == answer.tokens.total
            &&& answer.tokens.prompt <= i64::MAX ==> row.token_prompt == answer.tokens.prompt
            &&& answer.tokens.cache_read <= i64::MAX ==> row.token_cache_read
                == answer.tokens.cache_read
        }),
        table::is_rest(
            before.backups@,
            after.backups@,
            |row: BackupRow| row.turn_id@ == turn_id && row.revision == revision,
        ),
        table::is_rest(
            before.segments@,
            after.segments@,
            |row: SegmentRow| row.turn_id@ == turn_id,
        ),
        table::is_rest(before.events@, after.events@, |row: EventRow| row.turn_id@ == turn_id),
        only_touched(before.sessions@, after.sessions@, before.turns@[i].session_id@, now.secs),
        snapshot is None ==> table::is_rest(
            before.replays@,
            after.replays@,
            |row: ReplayRow| row.turn_id@ == turn_id,
        ),
        snapshot is Some ==> after.replays@.len() > 0 && after.replays@.last().turn_id@ == turn_id
            && after.replays@.last().entries == snapshot->0 && table::is_rest(
            before.replays@,
            after.replays@.drop_last(),
            |row: ReplayRow| row.turn_id@ == turn_id,
        ),
        after.prompts == before.prompts && after.questions == before.questions,
{
    super::lemma_turn_at(before.turns@, turn_id, i);
    let turn = before.turns@[i];
    let backups = |row: BackupRow| row.turn_id@ == turn_id && row.revision == revision;
    table::lemma_rest_of(before.backups@, after.backups@, backups);
    let segments = |row: SegmentRow| row.turn_id@ == turn_id;
    let events = |row: EventRow| row.turn_id@ == turn_id;
    let replays = |row: ReplayRow| row.turn_id@ == turn_id;
    table::lemma_rest_of(before.segments@, after.segments@, segments);
    table::lemma_rest_of(before.events@, after.events@, events);
    lemma_touched(before.sessions@, turn.session_id@, now.secs);
    let rest = choose|rest: Seq<ReplayRow>|
        after.replays@ == #[trigger] turns::with_snapshot(rest, turn.turn_id, snapshot) && (exists|
            chosen: spec_fn(ReplayRow) -> bool,
        |
            rest == #[trigger] table::without(before.replays@, chosen) && (forall|row: ReplayRow| #[trigger]
                chosen(row) == replays(row)));
    table::lemma_rest_of(before.replays@, rest, replays);
    if snapshot is Some {
        lemma_kept(rest, turn.turn_id, snapshot);
        table::lemma_rest_alike(rest, after.replays@.drop_last(), replays);
        lemma_rest_twice(before.replays@, rest, after.replays@.drop_last(), replays);
    }
}

/// Taking away what is not there any more changes nothing.
proof fn lemma_rest_twice(
    rows: Seq<ReplayRow>,
    rest: Seq<ReplayRow>,
    again: Seq<ReplayRow>,
    gone: spec_fn(ReplayRow) -> bool,
)
    requires
        exists|chosen: spec_fn(ReplayRow) -> bool|
            rest == #[trigger] table::without(rows, chosen) && (forall|row: ReplayRow| #[trigger]
                chosen(row) == gone(row)),
        table::is_rest(rest, again, gone),
    ensures
        table::is_rest(rows, again, gone),
{
    let kept = |row: ReplayRow| !gone(row);
    let chosen = choose|chosen: spec_fn(ReplayRow) -> bool|
        rest == #[trigger] table::without(rows, chosen) && (forall|row: ReplayRow| #[trigger]
            chosen(row) == gone(row));
    assert forall|i: int| 0 <= i < rest.len() implies kept(#[trigger] rest[i]) by {
        table::lemma_filtered(rows, |row: ReplayRow| !chosen(row), i);
        assert(!chosen(rest[i]));
    }
    lemma_count_all(rest, kept, rest.len() as int);
    assert forall|i: int| 0 <= i < rest.len() implies again[i] == #[trigger] rest[i] by {
        lemma_count_all(rest, kept, i);
        assert(kept(rest[i]));
        assert(again[table::count(rest, kept, i)] == rest[i]);
    }
    assert(again =~= rest);
    table::lemma_rest(rows, chosen, gone);
}

proof fn lemma_count_all(rows: Seq<ReplayRow>, kept: spec_fn(ReplayRow) -> bool, n: int)
    requires
        0 <= n <= rows.len(),
        forall|i: int| 0 <= i < rows.len() ==> kept(#[trigger] rows[i]),
    ensures
        table::count(rows, kept, n) == n,
    decreases n,
{
    if n > 0 {
        lemma_count_all(rows, kept, n - 1);
        assert(kept(rows[n - 1]));
    }
}

// ---------------------------------------------------------------------------
// Taking messages in
// ---------------------------------------------------------------------------

/// Whether a message waits in a queue.
pub open spec fn is_queued(prompt: PromptRow, queue: Seq<char>) -> bool {
    prompt.status is Queued && (prompt.queue_session_id matches Some(q) && q@ == queue)
}

/// A turn takes in every message that waits in the queue, with its own wording,
/// and leaves every other as it is. Only the first of them carries what was
/// said before it.
pub proof fn every_waiting_message_is_taken(
    before: ConversationDb,
    after: ConversationDb,
    queue: Seq<char>,
    turn_id: String,
    revision: i64,
    now: String,
    p: int,
    earlier: int,
)
    requires
        queue::waiting_taken(before, after, queue, turn_id, revision, now),
        0 <= p < before.prompts@.len(),
    ensures
        ({
            let was = before.prompts@[p];
            let row = after.prompts@[p];
            &&& after.prompts@.len() == before.prompts@.len()
            &&& is_queued(was, queue) ==> row == (PromptRow {
                status: row.status,
                consumed_at: Some(now),
                turn_id: Some(turn_id),
                context_content: Some(was.content),
                preceding_assistant_content: row.preceding_assistant_content,
                preceding_assistant_reasoning: row.preceding_assistant_reasoning,
                ..was
            }) && row.status is Consumed
            &&& is_queued(was, queue) && 0 <= earlier < p && is_queued(
                before.prompts@[earlier],
                queue,
            ) ==> row.preceding_assistant_content is None && row.preceding_assistant_reasoning
                is None
            &&& !is_queued(was, queue) ==> row == was
            &&& after.turns == before.turns && after.sessions == before.sessions && after.replays
                == before.replays
        }),
{
    let prompts = before.prompts@;
    let was = prompts[p];
    assert(queue::waits_in(was, queue) == is_queued(was, queue));
    if 0 <= earlier < p && is_queued(prompts[earlier], queue) {
        queue::lemma_waiting_ids(prompts, queue, p);
        assert(queue::waits_in(prompts[earlier], queue));
    }
}

/// The first message that is taken in carries what the turn had said and
/// thought in the stretch before it, where that was still running, and nothing
/// where it was not or nothing was said.
pub proof fn the_first_message_carries_what_was_said(
    before: ConversationDb,
    after: ConversationDb,
    queue: Seq<char>,
    turn_id: String,
    revision: i64,
    now: String,
    p: int,
    s: int,
)
    requires
        queue::waiting_taken(before, after, queue, turn_id, revision, now),
        0 <= p < before.prompts@.len(),
        is_queued(before.prompts@[p], queue),
        forall|k: int| 0 <= k < p ==> !is_queued(#[trigger] before.prompts@[k], queue),
        is_last_of(before.segments@, turn_id@, revision, s),
        has_opening(before.segments@, turn_id@, revision),
    ensures
        ({
            let row = after.prompts@[p];
            let said = projection::segment_projection(
                before.events@,
                turn_id@,
                revision,
                before.segments@[s].segment_index,
            );
            &&& before.segments@[s].status is Running && text::trim(said.0).len() > 0 ==> (
            row.preceding_assistant_content matches Some(told) && told@ == said.0)
            &&& before.segments@[s].status is Running ==> json::opt_text(
                row.preceding_assistant_reasoning,
            ) == said.1
            &&& before.segments@[s].status !is Running || text::trim(said.0).len() == 0
                ==> row.preceding_assistant_content is None
            &&& before.segments@[s].status !is Running ==> row.preceding_assistant_reasoning is None
        }),
{
    let prompts = before.prompts@;
    queue::lemma_waiting_ids(prompts, queue, p);
    assert(queue::waits_in(prompts[p], queue));
    assert forall|k: int| 0 <= k < p implies !queue::waits_in(#[trigger] prompts[k], queue) by {
        assert(!is_queued(prompts[k], queue));
    }
    lemma_last_is(before.segments@, turn_id, revision, now, s);
    text::blank_is_all_space(Seq::empty());
}

/// Whether stretch `s` is the last of a generation.
pub open spec fn is_last_of(segments: Seq<SegmentRow>, turn_id: Seq<char>, revision: i64, s: int) -> bool {
    &&& 0 <= s < segments.len()
    &&& segments[s].turn_id@ == turn_id && segments[s].revision == revision
    &&& forall|k: int|
        s < k < segments.len() ==> !((#[trigger] segments[k]).turn_id@ == turn_id
            && segments[k].revision == revision)
}

/// Whether a generation has its opening stretch.
pub open spec fn has_opening(segments: Seq<SegmentRow>, turn_id: Seq<char>, revision: i64) -> bool {
    exists|k: int|
        0 <= k < segments.len() && (#[trigger] segments[k]).turn_id@ == turn_id
            && segments[k].revision == revision && segments[k].segment_index == 0
}

proof fn lemma_last_is(
    segments: Seq<SegmentRow>,
    turn_id: String,
    revision: i64,
    now: String,
    s: int,
)
    requires
        is_last_of(segments, turn_id@, revision, s),
        has_opening(segments, turn_id@, revision),
    ensures
        queue::with_first(segments, turn_id, revision, now) == segments,
        queue::last_segment(segments, turn_id@, revision, segments.len() as int) == s,
{
    let k = choose|k: int|
        0 <= k < segments.len() && (#[trigger] segments[k]).turn_id@ == turn_id@
            && segments[k].revision == revision && segments[k].segment_index == 0;
    assert(queue::of_generation(segments[k], turn_id@, revision));
    queue::lemma_last_segment(segments, turn_id@, revision, segments.len() as int);
    let at = queue::last_segment(segments, turn_id@, revision, segments.len() as int);
    assert(queue::of_generation(segments[s], turn_id@, revision));
    if at < s {
        assert(!queue::of_generation(segments[s], turn_id@, revision));
    }
    if at > s {
        assert(queue::of_generation(segments[at], turn_id@, revision));
    }
}

/// Taking messages in closes the last stretch of the journal, unless it was
/// replaced, and begins one more with the next index. An event says so in the
/// stretch that was closed, or in the new one where none was. All other
/// stretches and events stay.
pub proof fn a_new_stretch_begins(
    before: ConversationDb,
    after: ConversationDb,
    queue: Seq<char>,
    turn_id: String,
    revision: i64,
    now: String,
    s: int,
)
    requires
        queue::waiting_taken(before, after, queue, turn_id, revision, now),
        is_last_of(before.segments@, turn_id@, revision, s),
        has_opening(before.segments@, turn_id@, revision),
        before.segments@[s].segment_index < i64::MAX,
    ensures
        ({
            let last = before.segments@[s];
            let next = after.segments@.last();
            let event = after.events@.last();
            &&& after.segments@.len() == before.segments@.len() + 1
            &&& next.turn_id == turn_id && next.revision == revision && next.segment_index
                == last.segment_index + 1
            &&& next.status is Running && next.started_at == now && next.finished_at is None
            &&& last.status !is Superseded ==> after.segments@[s] == (SegmentRow {
                status: after.segments@[s].status,
                finished_at: Some(now),
                ..last
            }) && after.segments@[s].status is Completed
            &&& last.status is Superseded ==> after.segments@[s] == last
            &&& forall|k: int|
                0 <= k < before.segments@.len() && k != s ==> after.segments@[k]
                    == #[trigger] before.segments@[k]
            &&& after.events@.len() == before.events@.len() + 1
            &&& after.events@.drop_last() == before.events@
            &&& event.turn_id == turn_id && event.revision == revision && event.created_at == now
            &&& event.kind@ == "queued_prompts_consumed"@
            &&& event.segment_index == if last.status is Superseded {
                next.segment_index
            } else {
                last.segment_index
            }
            &&& event.text_payload is Some
        }),
{
    lemma_last_is(before.segments@, turn_id, revision, now, s);
}

/// A queued message is counted where it waits, and no other is: there are as
/// many ids as messages, each at its place.
pub proof fn waiting_messages_are_counted(prompts: Seq<PromptRow>, queue: Seq<char>, p: int)
    requires
        0 <= p < prompts.len(),
        is_queued(prompts[p], queue),
    ensures
        ({
            let chosen = |prompt: PromptRow| is_queued(prompt, queue);
            let ids = queue::waiting_ids(prompts, queue, prompts.len() as int);
            &&& ids.len() == table::count(prompts, chosen, prompts.len() as int)
            &&& 0 <= table::count(prompts, chosen, p) < ids.len()
            &&& ids[table::count(prompts, chosen, p)] == prompts[p].prompt_id@
        }),
{
    lemma_ids(prompts, queue, prompts.len() as int, p);
}

proof fn lemma_ids(prompts: Seq<PromptRow>, queue: Seq<char>, n: int, p: int)
    requires
        0 <= n <= prompts.len(),
        0 <= p < prompts.len(),
        is_queued(prompts[p], queue),
    ensures
        ({
            let chosen = |prompt: PromptRow| is_queued(prompt, queue);
            let ids = queue::waiting_ids(prompts, queue, n);
            &&& ids.len() == table::count(prompts, chosen, n)
            &&& p < n ==> 0 <= table::count(prompts, chosen, p) < ids.len() && ids[table::count(
                prompts,
                chosen,
                p,
            )] == prompts[p].prompt_id@
        }),
    decreases n,
{
    if n > 0 {
        lemma_ids(prompts, queue, n - 1, p);
        assert(queue::waits_in(prompts[n - 1], queue) == is_queued(prompts[n - 1], queue));
    }
}

// ---------------------------------------------------------------------------
// Undoing a redo
// ---------------------------------------------------------------------------

/// Undoing a redo makes the turn what it was before, as its backup tells, one
/// revision lower. Its number, its place and all other turns stay.
pub proof fn an_undone_turn_is_what_it_was(
    before: ConversationDb,
    after: ConversationDb,
    turn_id: Seq<char>,
    revision: i64,
    i: int,
    b: int,
)
    requires
        before.wf(),
        redo::redo_undone(before, turn_id, revision, after),
        0 <= i < before.turns@.len(),
        before.turns@[i].turn_id@ == turn_id,
        before.turns@[i].revision > i64::MIN,
        is_first_backup(before.backups@, turn_id, revision, b),
    ensures
        ({
            let turn = before.turns@[i];
            let backup = before.backups@[b].backup;
            let row = after.turns@[i];
            &&& after.turns@.len() == before.turns@.len()
            &&& forall|j: int|
                0 <= j < before.turns@.len() && j != i ==> after.turns@[j]
                    == #[trigger] before.turns@[j]
            &&& row.turn_id == turn.turn_id && row.session_id == turn.session_id && row.seq
                == turn.seq
            &&& row.revision == turn.revision - 1
            &&& row.user_content == backup.user_content && row.display_content
                == backup.display_content
            &&& row.assistant_content == backup.assistant_content && row.assistant_reasoning
                == backup.assistant_reasoning
            &&& row.assistant_provider_id == backup.assistant_provider_id && row.assistant_model
                == backup.assistant_model
            &&& row.assistant_timestamp == backup.assistant_timestamp && row.status
                == backup.status
            &&& row.tool_reports == backup.tool_reports && row.owner_pid == backup.owner_pid
            &&& row.queue_session_id == backup.queue_session_id
            &&& row.token_total == backup.token_total && row.token_prompt == backup.token_prompt
            &&& row.token_cache_read == backup.token_cache_read && row.token_usage_estimated
                == backup.token_usage_estimated
            &&& row.user_timestamp == turn.user_timestamp && row.workspace == turn.workspace
            &&& row.hidden == turn.hidden && row.is_summary == turn.is_summary
            &&& row.context_messages == turn.context_messages && row.tool_flow == turn.tool_flow
            &&& row.generation_tokens == turn.generation_tokens && row.generation_ms
                == turn.generation_ms && row.token_context_end == turn.token_context_end
        }),
{
    super::lemma_turn_at(before.turns@, turn_id, i);
    lemma_backup_is(before.backups@, turn_id, revision, b, before.backups@.len() as int);
}

/// Whether backup `b` is the first of a generation.
pub open spec fn is_first_backup(
    backups: Seq<BackupRow>,
    turn_id: Seq<char>,
    revision: i64,
    b: int,
) -> bool {
    &&& 0 <= b < backups.len()
    &&& backups[b].turn_id@ == turn_id && backups[b].revision == revision
    &&& forall|k: int|
        0 <= k < b ==> !((#[trigger] backups[k]).turn_id@ == turn_id && backups[k].revision
            == revision)
}

proof fn lemma_backup_is(
    backups: Seq<BackupRow>,
    turn_id: Seq<char>,
    revision: i64,
    b: int,
    n: int,
)
    requires
        is_first_backup(backups, turn_id, revision, b),
        0 <= n <= backups.len(),
    ensures
        redo::backup_index(backups, turn_id, revision, n) == if b < n {
            b
        } else {
            -1
        },
    decreases n,
{
    if n > 0 {
        lemma_backup_is(backups, turn_id, revision, b, n - 1);
        let here = backups[n - 1];
    }
}

/// Undoing a redo takes away what the redo made: the journal of its generation,
/// the reports of its tools and its backup, and nothing that belongs to another
/// turn or to another generation.
pub proof fn what_a_redo_made_is_gone(
    before: ConversationDb,
    after: ConversationDb,
    turn_id: Seq<char>,
    revision: i64,
)
    requires
        redo::redo_undone(before, turn_id, revision, after),
    ensures
        table::is_rest(
            before.segments@,
            after.segments@,
            |row: SegmentRow| row.turn_id@ == turn_id && row.revision == revision,
        ),
        table::is_rest(
            before.events@,
            after.events@,
            |row: EventRow| row.turn_id@ == turn_id && row.revision == revision,
        ),
        table::is_rest(
            before.backups@,
            after.backups@,
            |row: BackupRow| row.turn_id@ == turn_id && row.revision == revision,
        ),
        table::is_rest(
            before.tool_reports@,
            after.tool_reports@,
            |row: ToolReportRow| row.turn_id@ == turn_id,
        ),
        after.sessions == before.sessions && after.replays == before.replays && after.attachments
            == before.attachments,
{
    table::lemma_rest_of(
        before.segments@,
        after.segments@,
        |row: SegmentRow| row.turn_id@ == turn_id && row.revision == revision,
    );
    table::lemma_rest_of(
        before.events@,
        after.events@,
        |row: EventRow| row.turn_id@ == turn_id && row.revision == revision,
    );
    table::lemma_rest_of(
        before.backups@,
        after.backups@,
        |row: BackupRow| row.turn_id@ == turn_id && row.revision == revision,
    );
    table::lemma_rest_of(
        before.tool_reports@,
        after.tool_reports@,
        |row: ToolReportRow| row.turn_id@ == turn_id,
    );
}

/// Whether the rows of a turn were replaced by what was put aside of them: the
/// rows of others stay in their order, and behind them stands what was put
/// aside, and nothing else.
pub open spec fn is_put_back<T>(
    rows: Seq<T>,
    aside: Seq<T>,
    after: Seq<T>,
    own: spec_fn(T) -> bool,
) -> bool {
    exists|k: int|
        0 <= k <= after.len() && table::is_rest(rows, #[trigger] after.take(k), own)
            && table::is_rest(aside, after.skip(k), |row: T| !own(row))
}

proof fn lemma_put_back<T>(rows: Seq<T>, aside: Seq<T>, after: Seq<T>, own: spec_fn(T) -> bool)
    requires
        exists|chosen: spec_fn(T) -> bool|
            after == #[trigger] redo::put_back(rows, aside, chosen) && (forall|row: T| #[trigger]
                chosen(row) == own(row)),
    ensures
        is_put_back(rows, aside, after, own),
{
    let chosen = choose|chosen: spec_fn(T) -> bool|
        after == #[trigger] redo::put_back(rows, aside, chosen) && (forall|row: T| #[trigger]
            chosen(row) == own(row));
    let kept = table::without(rows, chosen);
    let back = aside.filter(chosen);
    let k = kept.len() as int;
    assert(after.take(k) =~= kept);
    assert(after.skip(k) =~= back);
    table::lemma_rest(rows, chosen, own);
    table::lemma_chosen_rest(aside, chosen, |row: T| !own(row));
}

/// Undoing a redo puts the questions, the images and the files of the turn back
/// as they were put aside, and leaves those of other turns.
pub proof fn what_was_put_aside_is_back(
    before: ConversationDb,
    after: ConversationDb,
    turn_id: Seq<char>,
    revision: i64,
)
    requires
        redo::redo_undone(before, turn_id, revision, after),
    ensures
        is_put_back(
            before.questions@,
            before.question_backups@,
            after.questions@,
            |row: QuestionRow| row.turn_id@ == turn_id,
        ),
        is_put_back(
            before.images@,
            before.image_backups@,
            after.images@,
            |row: AssetRow| row.turn_id@ == turn_id,
        ),
        is_put_back(
            before.artifacts@,
            before.artifact_backups@,
            after.artifacts@,
            |row: AssetRow| row.turn_id@ == turn_id,
        ),
{
    lemma_put_back(
        before.questions@,
        before.question_backups@,
        after.questions@,
        |row: QuestionRow| row.turn_id@ == turn_id,
    );
    lemma_put_back(
        before.images@,
        before.image_backups@,
        after.images@,
        |row: AssetRow| row.turn_id@ == turn_id,
    );
    lemma_put_back(
        before.artifacts@,
        before.artifact_backups@,
        after.artifacts@,
        |row: AssetRow| row.turn_id@ == turn_id,
    );
}

/// Undoing a redo loads in the session what was loaded before it, and nothing
/// else there, and gives the turn its checkpoint back where it had one.
pub proof fn what_was_loaded_is_loaded_again(
    before: ConversationDb,
    after: ConversationDb,
    turn_id: Seq<char>,
    revision: i64,
    i: int,
    b: int,
)
    requires
        before.wf(),
        redo::redo_undone(before, turn_id, revision, after),
        0 <= i < before.turns@.len(),
        before.turns@[i].turn_id@ == turn_id,
        is_first_backup(before.backups@, turn_id, revision, b),
    ensures
        ({
            let backup = before.backups@[b].backup;
            let n = backup.loaded_items@.len() as int;
            let k = after.loaded_items@.len() - n;
            &&& k >= 0
            &&& table::is_rest(
                before.loaded_items@,
                after.loaded_items@.take(k),
                |row: LoadedItemRow| row.session_id@ == before.turns@[i].session_id@,
            )
            &&& forall|m: int|
                0 <= m < n ==> after.loaded_items@[k + m].item == #[trigger] backup.loaded_items@[m]
                    && after.loaded_items@[k + m].session_id@ == before.turns@[i].session_id@
            &&& backup.checkpoint matches Some(checkpoint) ==> after.checkpoints@.len() > 0
                && after.checkpoints@.last().turn_id@ == turn_id
                && after.checkpoints@.last().checkpoint == checkpoint && table::is_rest(
                before.checkpoints@,
                after.checkpoints@.drop_last(),
                |row: CheckpointRow| row.turn_id@ == turn_id,
            )
            &&& backup.checkpoint is None ==> table::is_rest(
                before.checkpoints@,
                after.checkpoints@,
                |row: CheckpointRow| row.turn_id@ == turn_id,
            )
        }),
{
    super::lemma_turn_at(before.turns@, turn_id, i);
    lemma_backup_is(before.backups@, turn_id, revision, b, before.backups@.len() as int);
    let turn = before.turns@[i];
    let backup = before.backups@[b].backup;
    let items = redo::loaded_rows(turn.session_id, backup.loaded_items@);
    let rest = choose|rest: Seq<LoadedItemRow>|
        after.loaded_items@ == #[trigger] (rest + items) && (exists|
            chosen: spec_fn(LoadedItemRow) -> bool,
        |
            rest == #[trigger] table::without(before.loaded_items@, chosen) && (forall|
                row: LoadedItemRow,
            | #[trigger]
                chosen(row) == (row.session_id@ == turn.session_id@)));
    let k = after.loaded_items@.len() - items.len();
    assert(after.loaded_items@.take(k) =~= rest);
    table::lemma_rest_of(
        before.loaded_items@,
        rest,
        |row: LoadedItemRow| row.session_id@ == before.turns@[i].session_id@,
    );
    assert forall|m: int| 0 <= m < items.len() implies after.loaded_items@[k + m].item
        == #[trigger] backup.loaded_items@[m] && after.loaded_items@[k + m].session_id@
        == turn.session_id@ by {
        assert(after.loaded_items@[k + m] == items[m]);
    }
    let own = |row: CheckpointRow| row.turn_id@ == turn_id;
    match backup.checkpoint {
        Some(checkpoint) => {
            let one = seq![CheckpointRow { turn_id: turn.turn_id, checkpoint }];
            let left = choose|left: Seq<CheckpointRow>|
                after.checkpoints@ == #[trigger] (left + one) && (exists|
                    chosen: spec_fn(CheckpointRow) -> bool,
                |
                    left == #[trigger] table::without(before.checkpoints@, chosen) && (forall|
                        row: CheckpointRow,
                    | #[trigger]
                        chosen(row) == own(row)));
            assert(after.checkpoints@.drop_last() =~= left);
            table::lemma_rest_of(before.checkpoints@, left, own);
        },
        None => {
            let none = Seq::<CheckpointRow>::empty();
            let left = choose|left: Seq<CheckpointRow>|
                after.checkpoints@ == #[trigger] (left + none) && (exists|
                    chosen: spec_fn(CheckpointRow) -> bool,
                |
                    left == #[trigger] table::without(before.checkpoints@, chosen) && (forall|
                        row: CheckpointRow,
                    | #[trigger]
                        chosen(row) == own(row)));
            assert(left + none =~= left);
            table::lemma_rest_of(before.checkpoints@, left, own);
        },
    }
}

/// Undoing a redo takes away the messages that only the redo took in. Every
/// other message stays, and but for the last that the turn had taken in, as it
/// is: that one gets the wording back that it had.
pub proof fn messages_of_a_redo_are_gone(
    before: ConversationDb,
    after: ConversationDb,
    turn_id: Seq<char>,
    revision: i64,
    b: int,
    p: int,
)
    requires
        redo::redo_undone(before, turn_id, revision, after),
        is_first_backup(before.backups@, turn_id, revision, b),
        0 <= p < before.prompts@.len(),
    ensures
        ({
            let backup = before.backups@[b].backup;
            let was = before.prompts@[p];
            let own = was.status is Consumed && (was.turn_id matches Some(id) && id@ == turn_id);
            let original = exists|k: int|
                0 <= k < backup.consumed_prompt_ids@.len() && (
                #[trigger] backup.consumed_prompt_ids@[k])@ == was.prompt_id@;
            &&& !own ==> after.prompts@.contains(was)
            &&& own && original ==> exists|k: int|
                0 <= k < after.prompts@.len() && (#[trigger] after.prompts@[k]) == (PromptRow {
                    content: after.prompts@[k].content,
                    display_content: after.prompts@[k].display_content,
                    context_content: after.prompts@[k].context_content,
                    ..was
                }) && (after.prompts@[k] == was || backup.followup_content == Some(
                    after.prompts@[k].content,
                ) && backup.followup_display_content == Some(after.prompts@[k].display_content)
                    && backup.followup_context_content == after.prompts@[k].context_content)
            &&& backup.followup_content is None ==> forall|k: int|
                0 <= k < after.prompts@.len() ==> before.prompts@.contains(
                    #[trigger] after.prompts@[k],
                )
        }),
{
    lemma_backup_is(before.backups@, turn_id, revision, b, before.backups@.len() as int);
    let backup = before.backups@[b].backup;
    let was = before.prompts@[p];
    let kept = redo::prompts_kept(before.prompts@, turn_id, backup.consumed_prompt_ids@);
    let gone = |row: PromptRow|
        redo::taken_into(row, turn_id) && !text::listed(
            backup.consumed_prompt_ids@,
            row.prompt_id@,
        );
    table::lemma_rest_of(before.prompts@, kept, gone);
    let still = |row: PromptRow| !gone(row);
    redo::lemma_last_taken(kept, turn_id, kept.len() as int);
    let at = redo::last_taken(kept, turn_id, kept.len() as int);
    lemma_last_taken_is(kept, turn_id, kept.len() as int);
    if !gone(was) {
        let k = table::count(before.prompts@, still, p);
        assert(kept[k] == was);
        table::lemma_count(before.prompts@, still, p);
        lemma_count_grows(before.prompts@, still, p, before.prompts@.len() as int);
        assert(0 <= k < kept.len());
        if k != at {
            assert(after.prompts@[k] == was);
        }
        assert(after.prompts@[k] == (PromptRow {
            content: after.prompts@[k].content,
            display_content: after.prompts@[k].display_content,
            context_content: after.prompts@[k].context_content,
            ..was
        }));
    }
    if backup.followup_content is None {
        assert(after.prompts@ == kept);
        let chosen = choose|chosen: spec_fn(PromptRow) -> bool|
            kept == #[trigger] table::without(before.prompts@, chosen) && (forall|
                row: PromptRow,
            | #[trigger]
                chosen(row) == gone(row));
        let stays = |row: PromptRow| !chosen(row);
        assert forall|k: int| 0 <= k < kept.len() implies before.prompts@.contains(
            #[trigger] kept[k],
        ) by {
            assert(before.prompts@.filter(stays).contains(kept[k]));
            before.prompts@.lemma_filter_contains_rev(stays, kept[k]);
        }
    }
}

proof fn lemma_last_taken_is(prompts: Seq<PromptRow>, turn_id: Seq<char>, n: int)
    requires
        0 <= n <= prompts.len(),
    ensures
        redo::last_taken(prompts, turn_id, n) >= 0 ==> redo::taken_into(
            prompts[redo::last_taken(prompts, turn_id, n)],
            turn_id,
        ),
    decreases n,
{
    if n > 0 {
        lemma_last_taken_is(prompts, turn_id, n - 1);
    }
}

proof fn lemma_count_grows(rows: Seq<PromptRow>, keep: spec_fn(PromptRow) -> bool, i: int, n: int)
    requires
        0 <= i < n <= rows.len(),
        keep(rows[i]),
    ensures
        table::count(rows, keep, i) < table::count(rows, keep, n),
    decreases n,
{
    if i < n - 1 {
        lemma_count_grows(rows, keep, i, n - 1);
    }
}

} // verus!
