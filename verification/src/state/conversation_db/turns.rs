//! Beginning and ending turns.
//!
//! A turn ends in one of four ways, completed or interrupted, at its first
//! revision or at a later one, and each leaves other columns behind.

use vstd::prelude::*;

use crate::json;
use crate::text::same_text;

use super::projection::{self, interrupted_projection};
use super::queue;
use super::redo;
use super::rows::{
    AttachmentRow, BackupRow, DbError, EventRow, ReplayEntry, ReplayRow, SegmentRow, SegmentStatus,
    SessionRow, Stamp, TurnRow, TurnStatus, TurnTokens,
};
use crate::table::{self, delete_where};
use super::{find_turn, ConversationDb};

verus! {

/// The last turn of a session, and -1 where there is none, among the first
/// `n`.
pub open spec fn last_turn(turns: Seq<TurnRow>, session: Seq<char>, n: int) -> int
    decreases n,
{
    if n <= 0 {
        -1
    } else if turns[n - 1].session_id@ == session {
        n - 1
    } else {
        last_turn(turns, session, n - 1)
    }
}

/// The last turn of a session.
pub fn find_last_turn(turns: &Vec<TurnRow>, session: &str) -> (at: Option<usize>)
    ensures
        match at {
            Some(i) => i < turns.len() && last_turn(turns@, session@, turns@.len() as int) == i
                && turns@[i as int].session_id@ == session@,
            None => last_turn(turns@, session@, turns@.len() as int) == -1,
        },
{
    let mut n: usize = turns.len();
    while n > 0
        invariant
            n <= turns@.len(),
            last_turn(turns@, session@, turns@.len() as int) == last_turn(
                turns@,
                session@,
                n as int,
            ),
        decreases n,
    {
        let at: usize = n - 1;
        if same_text(turns[at].session_id.as_str(), session) {
            return Some(at);
        }
        n -= 1;
    }
    None
}

/// No turn of a session stands after its last one.
pub proof fn lemma_last_turn(turns: Seq<TurnRow>, session: Seq<char>, n: int)
    requires
        0 <= n <= turns.len(),
    ensures
        ({
            let at = last_turn(turns, session, n);
            &&& -1 <= at < n
            &&& at >= 0 ==> turns[at].session_id@ == session
            &&& forall|i: int| at < i < n ==> (#[trigger] turns[i]).session_id@ != session
        }),
    decreases n,
{
    if n > 0 && turns[n - 1].session_id@ != session {
        lemma_last_turn(turns, session, n - 1);
    }
}

/// The highest number of a turn in a session, 0 where it has none.
pub open spec fn latest_seq(turns: Seq<TurnRow>, session: Seq<char>) -> i64 {
    let at = last_turn(turns, session, turns.len() as int);
    if at >= 0 {
        turns[at].seq
    } else {
        0
    }
}

/// The highest number of a turn in a session, 0 where it has none.
pub fn latest_turn_seq_in(turns: &Vec<TurnRow>, session: &str) -> (seq: i64)
    ensures
        seq == latest_seq(turns@, session@),
{
    match find_last_turn(turns, session) {
        Some(at) => turns[at].seq,
        None => 0,
    }
}

/// Whether a turn of the same session that stands after turn `at` has ended.
pub open spec fn later_ended(turns: Seq<TurnRow>, at: int) -> bool {
    exists|j: int|
        at < j < turns.len() && (#[trigger] turns[j]).session_id@ == turns[at].session_id@
            && turns[j].status != TurnStatus::Running
}

/// Whether turn `at` has to go to the end of its session when it ends: it ends
/// for the first time, and later turns have ended before it.
pub open spec fn overtaken(turns: Seq<TurnRow>, at: int) -> bool {
    turns[at].revision == 0 && later_ended(turns, at)
}

/// The turns with turn `at` moved to the end of its session where it was
/// overtaken, so that what has ended is only ever added to.
pub open spec fn bumped(turns: Seq<TurnRow>, at: int) -> Seq<TurnRow> {
    if overtaken(turns, at) {
        turns.remove(at).push(
            TurnRow {
                seq: (latest_seq(turns, turns[at].session_id@) + 1) as i64,
                ..turns[at]
            },
        )
    } else {
        turns
    }
}

/// Whether turn `at` was overtaken and there is no number to give it.
pub open spec fn cannot_bump(turns: Seq<TurnRow>, at: int) -> bool {
    overtaken(turns, at) && latest_seq(turns, turns[at].session_id@) == i64::MAX
}

/// Whether a turn was overtaken.
fn is_overtaken(turns: &Vec<TurnRow>, at: usize) -> (r: bool)
    requires
        at < turns.len(),
    ensures
        r == overtaken(turns@, at as int),
{
    if turns[at].revision != 0 {
        return false;
    }
    let mut j: usize = at + 1;
    while j < turns.len()
        invariant
            at < j <= turns@.len(),
            turns@[at as int].revision == 0,
            forall|k: int|
                at < k < j ==> !((#[trigger] turns@[k]).session_id@ == turns@[at as int].session_id@
                    && turns@[k].status != TurnStatus::Running),
        decreases turns@.len() - j,
    {
        if turns[j].status != TurnStatus::Running && same_text(
            turns[j].session_id.as_str(),
            turns[at].session_id.as_str(),
        ) {
            return true;
        }
        j += 1;
    }
    false
}

/// Whether a turn was overtaken and there is no number to give it.
pub fn is_stuck(turns: &Vec<TurnRow>, at: usize) -> (r: bool)
    requires
        at < turns@.len(),
    ensures
        r == cannot_bump(turns@, at as int),
{
    is_overtaken(turns, at) && latest_turn_seq_in(turns, turns[at].session_id.as_str()) == i64::MAX
}

/// Moves turn `at` to the end of its session where it was overtaken.
pub fn bump_completion_seq(turns: &mut Vec<TurnRow>, at: usize)
    requires
        super::turns_ordered(old(turns)@),
        at < old(turns)@.len(),
        !cannot_bump(old(turns)@, at as int),
    ensures
        final(turns)@ == bumped(old(turns)@, at as int),
        super::turns_ordered(final(turns)@),
{
    let ghost before = turns@;
    if is_overtaken(turns, at) {
        let latest: i64 = latest_turn_seq_in(turns, turns[at].session_id.as_str());
        proof {
            lemma_last_turn(before, before[at as int].session_id@, before.len() as int);
        }
        let mut row = turns.remove(at);
        row.seq = latest + 1;
        turns.push(row);
        proof {
            lemma_bumped_ordered(before, at as int);
        }
    }
}

proof fn lemma_bumped_ordered(turns: Seq<TurnRow>, at: int)
    requires
        super::turns_ordered(turns),
        0 <= at < turns.len(),
        !cannot_bump(turns, at),
    ensures
        super::turns_ordered(bumped(turns, at)),
{
    if overtaken(turns, at) {
        let session = turns[at].session_id@;
        let after = bumped(turns, at);
        let last = last_turn(turns, session, turns.len() as int);
        lemma_last_turn(turns, session, turns.len() as int);
        let n = after.len() - 1;
        let place = |i: int|
            if i < at {
                i
            } else {
                i + 1
            };
        assert forall|i: int| 0 <= i < n implies #[trigger] after[i] == turns[place(i)] by {}
        assert forall|i: int, j: int| 0 <= i < j < after.len() implies #[trigger] after[i].turn_id@
            != #[trigger] after[j].turn_id@ by {
            if j < n {
                assert(turns[place(i)].turn_id@ != turns[place(j)].turn_id@);
            } else {
                assert(turns[place(i)].turn_id@ != turns[at].turn_id@);
            }
        }
        assert forall|i: int, j: int|
            0 <= i < j < after.len() && #[trigger] after[i].session_id@
                == #[trigger] after[j].session_id@ implies after[i].seq < after[j].seq by {
            if j < n {
                assert(turns[place(i)].session_id@ == turns[place(j)].session_id@);
            } else {
                let k = place(i);
                assert(turns[k].session_id@ == session);
                assert(k <= last);
                if k < last {
                    assert(turns[k].session_id@ == turns[last].session_id@);
                }
            }
        }
    }
}

/// The history of a session is only ever added to: a turn that ends for the
/// first time stands, by its number, after every turn of its session that has
/// ended before.
pub proof fn ended_turns_are_only_added_to(turns: Seq<TurnRow>, at: int, ended: TurnRow, other: int)
    requires
        super::turns_ordered(turns),
        0 <= at < turns.len(),
        ended.turn_id == turns[at].turn_id,
        ended.session_id == turns[at].session_id,
        ended.seq == turns[at].seq,
        ended.revision == 0,
        !cannot_bump(turns.update(at, ended), at),
        0 <= other < turns.len(),
        other != at,
        turns[other].session_id@ == turns[at].session_id@,
        turns[other].status != TurnStatus::Running,
    ensures
        ({
            let after = bumped(turns.update(at, ended), at);
            let here = super::turn_index(after, ended.turn_id@);
            &&& here >= 0
            &&& after[here].seq > turns[other].seq
            &&& after.contains(turns[other])
        }),
{
    let now = turns.update(at, ended);
    super::lemma_turn_updated(turns, at, ended);
    lemma_bumped_ordered(now, at);
    let after = bumped(now, at);
    let session = ended.session_id@;
    lemma_last_turn(now, session, now.len() as int);
    let last = last_turn(now, session, now.len() as int);
    if overtaken(now, at) {
        let n = after.len() - 1;
        assert(super::is_turn_at(after, ended.turn_id@, n));
        let here = super::turn_index(after, ended.turn_id@);
        assert(super::is_turn_at(after, ended.turn_id@, here));
        if here < n {
            assert(after[here].turn_id@ != after[n].turn_id@);
        }
        assert(now[other].session_id@ == session);
        assert(other <= last);
        if other < last {
            assert(now[other].session_id@ == now[last].session_id@);
        }
        let k = if other < at {
            other
        } else {
            other - 1
        };
        assert(after[k] == turns[other]);
    } else {
        assert(super::is_turn_at(after, ended.turn_id@, at));
        let here = super::turn_index(after, ended.turn_id@);
        assert(super::is_turn_at(after, ended.turn_id@, here));
        if here != at {
            if here < at {
                assert(after[here].turn_id@ != after[at].turn_id@);
            } else {
                assert(after[at].turn_id@ != after[here].turn_id@);
            }
        }
        assert(now[other] == turns[other]);
        if other > at {
            assert(now[other].session_id@ == now[at].session_id@);
            assert(later_ended(now, at));
        } else {
            assert(turns[other].session_id@ == turns[at].session_id@);
        }
        assert(after[other] == turns[other]);
    }
}

/// The later of two moments.
pub open spec fn later(a: Option<i64>, b: i64) -> i64 {
    let a = match a {
        Some(a) => a,
        None => 0,
    };
    if a > b {
        a
    } else {
        b
    }
}

/// The sessions with one marked as used at `secs`. The mark never goes back.
pub open spec fn touched(sessions: Seq<SessionRow>, session: Seq<char>, secs: i64) -> Seq<
    SessionRow,
> {
    table::changed(
        sessions,
        |row: SessionRow| row.session_id@ == session,
        |row: SessionRow|
            SessionRow { last_request_at: Some(later(row.last_request_at, secs)), ..row },
    )
}

/// Marks a session as used.
pub fn touch_session_last_request(sessions: &mut Vec<SessionRow>, session: &str, secs: i64)
    ensures
        final(sessions)@ == touched(old(sessions)@, session@, secs),
{
    let ghost before = sessions@;
    let mut i: usize = 0;
    while i < sessions.len()
        invariant
            i <= sessions@.len(),
            sessions@.len() == before.len(),
            forall|k: int|
                0 <= k < i ==> sessions@[k] == #[trigger] touched(before, session@, secs)[k],
            forall|k: int| i <= k < before.len() ==> sessions@[k] == before[k],
        decreases sessions@.len() - i,
    {
        if same_text(sessions[i].session_id.as_str(), session) {
            let was: i64 = match sessions[i].last_request_at {
                Some(at) => at,
                None => 0,
            };
            let row = &mut sessions[i];
            row.last_request_at = Some(
                if was > secs {
                    was
                } else {
                    secs
                },
            );
        }
        i += 1;
    }
    assert(sessions@ =~= touched(before, session@, secs));
}

/// What finished turns showed, with that of one turn replaced.
pub open spec fn with_snapshot(
    replays: Seq<ReplayRow>,
    turn_id: String,
    snapshot: Option<Vec<ReplayEntry>>,
) -> Seq<ReplayRow> {
    match snapshot {
        Some(entries) => table::without(
            replays,
            |row: ReplayRow| row.turn_id@ == turn_id@,
        ).push(ReplayRow { turn_id, entries }),
        None => replays,
    }
}

/// Keeps what a turn showed, where it showed anything.
pub fn store_snapshot(
    replays: &mut Vec<ReplayRow>,
    turn_id: &String,
    snapshot: Option<Vec<ReplayEntry>>,
)
    ensures
        final(replays)@ == with_snapshot(old(replays)@, *turn_id, snapshot),
{
    if let Some(entries) = snapshot {
        forget_snapshot(replays, turn_id.as_str());
        replays.push(ReplayRow { turn_id: turn_id.clone(), entries });
    }
}

/// Forgets what a turn showed.
fn forget_snapshot(replays: &mut Vec<ReplayRow>, turn_id: &str)
    ensures
        final(replays)@ == table::without(
            old(replays)@,
            |row: ReplayRow| row.turn_id@ == turn_id@,
        ),
{
    let test = |row: &ReplayRow| -> (r: bool)
        ensures
            r == (row.turn_id@ == turn_id@),
    { same_text(row.turn_id.as_str(), turn_id) };
    delete_where(replays, test, Ghost(|row: ReplayRow| row.turn_id@ == turn_id@));
}

/// What a turn was answered.
#[derive(Debug)]
pub struct Answer {
    pub content: String,
    pub reasoning: Option<String>,
    pub provider_id: Option<String>,
    pub model: Option<String>,
    pub tokens: TurnTokens,
    /// Whether the tokens are an estimate.
    pub estimated: bool,
}

/// A turn after it was answered.
pub open spec fn answered(turn: TurnRow, answer: Answer, now: String) -> TurnRow {
    TurnRow {
        assistant_content: answer.content,
        assistant_reasoning: answer.reasoning,
        assistant_provider_id: answer.provider_id,
        assistant_model: answer.model,
        assistant_timestamp: Some(now),
        status: TurnStatus::Completed,
        token_total: answer.tokens.total as i64,
        token_prompt: answer.tokens.prompt as i64,
        token_cache_read: answer.tokens.cache_read as i64,
        token_usage_estimated: answer.estimated,
        ..turn
    }
}

/// Writes an answer into a turn.
fn write_answer(turns: &mut Vec<TurnRow>, at: usize, answer: Answer, now: &String)
    requires
        super::turns_ordered(old(turns)@),
        at < old(turns)@.len(),
    ensures
        final(turns)@ == old(turns)@.update(
            at as int,
            answered(old(turns)@[at as int], answer, *now),
        ),
        super::turns_ordered(final(turns)@),
{
    let ghost before = turns@;
    let row = &mut turns[at];
    row.assistant_content = answer.content;
    row.assistant_reasoning = answer.reasoning;
    row.assistant_provider_id = answer.provider_id;
    row.assistant_model = answer.model;
    row.assistant_timestamp = Some(now.clone());
    row.status = TurnStatus::Completed;
    row.token_total = answer.tokens.total as i64;
    row.token_prompt = answer.tokens.prompt as i64;
    row.token_cache_read = answer.tokens.cache_read as i64;
    row.token_usage_estimated = answer.estimated;
    proof {
        assert(turns@ =~= before.update(at as int, turns@[at as int]));
        super::lemma_turn_updated(before, at as int, turns@[at as int]);
    }
}

/// The journal of a turn is gone.
pub open spec fn journal_gone(before: ConversationDb, after: ConversationDb, turn_id: Seq<char>) -> bool {
    &&& after.segments@ == table::without(
        before.segments@,
        |row: SegmentRow| row.turn_id@ == turn_id,
    )
    &&& after.events@ == table::without(before.events@, |row: EventRow| row.turn_id@ == turn_id)
}

/// Deletes the journal of a turn.
fn drop_journal(segments: &mut Vec<SegmentRow>, events: &mut Vec<EventRow>, turn_id: &str)
    requires
        super::segments_ordered(old(segments)@),
    ensures
        final(segments)@ == table::without(
            old(segments)@,
            |row: SegmentRow| row.turn_id@ == turn_id@,
        ),
        final(events)@ == table::without(old(events)@, |row: EventRow| row.turn_id@ == turn_id@),
        super::segments_ordered(final(segments)@),
{
    let test = |row: &SegmentRow| -> (r: bool)
        ensures
            r == (row.turn_id@ == turn_id@),
    { same_text(row.turn_id.as_str(), turn_id) };
    delete_where(segments, test, Ghost(|row: SegmentRow| row.turn_id@ == turn_id@));
    let test = |row: &EventRow| -> (r: bool)
        ensures
            r == (row.turn_id@ == turn_id@),
    { same_text(row.turn_id.as_str(), turn_id) };
    delete_where(events, test, Ghost(|row: EventRow| row.turn_id@ == turn_id@));
    proof {
        super::lemma_segments_without(
            old(segments)@,
            |row: SegmentRow| row.turn_id@ == turn_id@,
        );
    }
}

/// Whether a turn is running.
pub open spec fn is_running(db: ConversationDb, turn_id: Seq<char>) -> bool {
    let at = db.turn_at(turn_id);
    at >= 0 && db.turns@[at].status == TurnStatus::Running
}

/// What completing a turn comes to: its answer is written, it goes to the end
/// of its session where it was overtaken, what it showed is kept, its journal
/// is deleted and its session is marked as used. A turn that is not running is
/// turned down.
pub open spec fn completion(
    before: ConversationDb,
    after: ConversationDb,
    turn_id: Seq<char>,
    answer: Answer,
    snapshot: Option<Vec<ReplayEntry>>,
    now: Stamp,
    done: Result<(), DbError>,
) -> bool {
    let at = before.turn_at(turn_id);
    let turn = before.turns@[at];
    let ended = before.turns@.update(at, answered(turn, answer, now.text));
    match done {
        Ok(()) => {
            &&& is_running(before, turn_id)
            &&& !cannot_bump(ended, at)
            &&& after.turns@ == bumped(ended, at)
            &&& after.replays@ == with_snapshot(before.replays@, turn.turn_id, snapshot)
            &&& journal_gone(before, after, turn_id)
            &&& after.sessions@ == touched(before.sessions@, turn.session_id@, now.secs)
            &&& after == (ConversationDb {
                turns: after.turns,
                replays: after.replays,
                segments: after.segments,
                events: after.events,
                sessions: after.sessions,
                ..before
            })
        },
        Err(DbError::TurnChanged) => !is_running(before, turn_id) && after == before,
        Err(DbError::SequenceFull) => is_running(before, turn_id) && cannot_bump(ended, at)
            && after == before,
        Err(_) => false,
    }
}

/// What completing a redo comes to: the answer is written in place, the backup
/// and what the turn showed before are gone.
pub open spec fn redo_completion(
    before: ConversationDb,
    after: ConversationDb,
    turn_id: Seq<char>,
    revision: i64,
    answer: Answer,
    snapshot: Option<Vec<ReplayEntry>>,
    now: Stamp,
    done: Result<(), DbError>,
) -> bool {
    let at = before.turn_at(turn_id);
    let turn = before.turns@[at];
    match done {
        Ok(()) => {
            &&& redo::runs_at(before, turn_id, revision)
            &&& after.turns@ == before.turns@.update(at, answered(turn, answer, now.text))
            &&& after.backups@ == table::without(
                before.backups@,
                |row: BackupRow| row.turn_id@ == turn_id && row.revision == revision,
            )
            &&& after.replays@ == with_snapshot(
                table::without(before.replays@, |row: ReplayRow| row.turn_id@ == turn_id),
                turn.turn_id,
                snapshot,
            )
            &&& journal_gone(before, after, turn_id)
            &&& after.sessions@ == touched(before.sessions@, turn.session_id@, now.secs)
            &&& after == (ConversationDb {
                turns: after.turns,
                backups: after.backups,
                replays: after.replays,
                segments: after.segments,
                events: after.events,
                sessions: after.sessions,
                ..before
            })
        },
        Err(e) => e == DbError::RedoChanged && !redo::runs_at(before, turn_id, revision) && after
            == before,
    }
}

/// A turn after it was interrupted. Its tokens are written where there are
/// any, so that an account from elsewhere is not lost.
pub open spec fn cut_off(
    before: TurnRow,
    after: TurnRow,
    answer: (Seq<char>, Option<Seq<char>>),
    tokens: TurnTokens,
    now: String,
) -> bool {
    let counted = tokens.total > 0 || tokens.prompt > 0;
    &&& after == (TurnRow {
        assistant_content: after.assistant_content,
        assistant_reasoning: after.assistant_reasoning,
        assistant_timestamp: Some(now),
        status: TurnStatus::Interrupted,
        token_total: if counted {
            tokens.total as i64
        } else {
            before.token_total
        },
        token_prompt: if counted {
            tokens.prompt as i64
        } else {
            before.token_prompt
        },
        token_cache_read: if counted {
            tokens.cache_read as i64
        } else {
            before.token_cache_read
        },
        ..before
    })
    &&& after.assistant_content@ == answer.0
    &&& json::opt_text(after.assistant_reasoning) == answer.1
}

/// The segments with the running ones of a generation marked as interrupted.
pub open spec fn segments_cut_off(
    segments: Seq<SegmentRow>,
    turn_id: Seq<char>,
    revision: i64,
    now: String,
) -> Seq<SegmentRow> {
    table::changed(
        segments,
        |row: SegmentRow|
            queue::of_generation(row, turn_id, revision) && row.status == SegmentStatus::Running,
        |row: SegmentRow|
            SegmentRow { status: SegmentStatus::Interrupted, finished_at: Some(now), ..row },
    )
}

/// What interrupting a running turn comes to: what it had said is written as
/// its answer, it goes to the end of its session where it was overtaken, what
/// it showed is kept, its journal is closed and its session is marked as used.
pub open spec fn interruption(
    before: ConversationDb,
    after: ConversationDb,
    turn_id: Seq<char>,
    tokens: TurnTokens,
    snapshot: Option<Vec<ReplayEntry>>,
    now: Stamp,
) -> bool {
    let at = before.turn_at(turn_id);
    let turn = before.turns@[at];
    let answer = projection::interrupted_answer(
        before.segments@,
        before.events@,
        turn_id,
        turn.revision,
    );
    &&& exists|row: TurnRow|
        #[trigger] cut_off(turn, row, answer, tokens, now.text) && after.turns@ == bumped(
            before.turns@.update(at, row),
            at,
        )
    &&& after.replays@ == with_snapshot(before.replays@, turn.turn_id, snapshot)
    &&& after.segments@ == segments_cut_off(before.segments@, turn_id, turn.revision, now.text)
    &&& after.sessions@ == touched(before.sessions@, turn.session_id@, now.secs)
    &&& after == (ConversationDb {
        turns: after.turns,
        replays: after.replays,
        segments: after.segments,
        sessions: after.sessions,
        ..before
    })
}

/// Marks the running segments of a generation as interrupted.
pub fn cut_off_segments(segments: &mut Vec<SegmentRow>, turn_id: &str, revision: i64, now: &String)
    requires
        super::segments_ordered(old(segments)@),
    ensures
        final(segments)@ == segments_cut_off(old(segments)@, turn_id@, revision, *now),
        super::segments_ordered(final(segments)@),
{
    let ghost before = segments@;
    let ghost wanted = segments_cut_off(before, turn_id@, revision, *now);
    let mut i: usize = 0;
    while i < segments.len()
        invariant
            i <= segments@.len(),
            segments@.len() == before.len(),
            wanted == segments_cut_off(before, turn_id@, revision, *now),
            forall|k: int| 0 <= k < i ==> segments@[k] == #[trigger] wanted[k],
            forall|k: int| i <= k < before.len() ==> segments@[k] == before[k],
        decreases segments@.len() - i,
    {
        if segments[i].revision == revision && segments[i].status == SegmentStatus::Running
            && same_text(segments[i].turn_id.as_str(), turn_id) {
            let row = &mut segments[i];
            row.status = SegmentStatus::Interrupted;
            row.finished_at = Some(now.clone());
        }
        i += 1;
    }
    proof {
        assert(segments@ =~= wanted);
        assert forall|i: int, j: int|
            0 <= i < j < wanted.len() && #[trigger] wanted[i].turn_id@
                == #[trigger] wanted[j].turn_id@ && wanted[i].revision
                == wanted[j].revision implies wanted[i].segment_index < wanted[j].segment_index by {
            assert(before[i].turn_id@ == before[j].turn_id@);
        }
    }
}

/// Writes what an interrupted turn had said into it.
pub fn write_cut_off(
    turns: &mut Vec<TurnRow>,
    at: usize,
    answer: (String, Option<String>),
    tokens: TurnTokens,
    now: &String,
)
    requires
        super::turns_ordered(old(turns)@),
        at < old(turns)@.len(),
    ensures
        final(turns)@ == old(turns)@.update(at as int, final(turns)@[at as int]),
        cut_off(
            old(turns)@[at as int],
            final(turns)@[at as int],
            (answer.0@, json::opt_text(answer.1)),
            tokens,
            *now,
        ),
        super::turns_ordered(final(turns)@),
{
    let ghost before = turns@;
    let row = &mut turns[at];
    row.assistant_content = answer.0;
    row.assistant_reasoning = answer.1;
    row.assistant_timestamp = Some(now.clone());
    row.status = TurnStatus::Interrupted;
    if tokens.total > 0 || tokens.prompt > 0 {
        row.token_total = tokens.total as i64;
        row.token_prompt = tokens.prompt as i64;
        row.token_cache_read = tokens.cache_read as i64;
    }
    proof {
        assert(turns@ =~= before.update(at as int, turns@[at as int]));
        super::lemma_turn_updated(before, at as int, turns@[at as int]);
    }
}

/// A turn that begins.
#[derive(Debug)]
pub struct NewTurn {
    pub turn_id: String,
    pub session_id: String,
    pub user_content: String,
    pub display_content: String,
    /// What stands for the answer until there is one.
    pub placeholder: String,
    pub owner_pid: u32,
    pub queue_session_id: String,
    pub workspace: Option<String>,
}

/// Whether a row is that of a turn that begins with number `seq`.
pub open spec fn is_fresh(row: TurnRow, new: NewTurn, seq: i64, now: String) -> bool {
    &&& row == (TurnRow {
        turn_id: new.turn_id,
        session_id: new.session_id,
        seq,
        user_content: new.user_content,
        display_content: new.display_content,
        user_timestamp: now,
        assistant_content: new.placeholder,
        assistant_reasoning: None,
        assistant_provider_id: None,
        assistant_model: None,
        assistant_timestamp: None,
        status: TurnStatus::Running,
        tool_reports: row.tool_reports,
        owner_pid: Some(new.owner_pid as i64),
        queue_session_id: Some(new.queue_session_id),
        workspace: new.workspace,
        revision: 0,
        hidden: false,
        is_summary: false,
        token_total: 0,
        token_prompt: 0,
        token_cache_read: 0,
        token_usage_estimated: false,
        token_context_end: None,
        generation_tokens: 0,
        generation_ms: 0,
        context_messages: row.context_messages,
        tool_flow: None,
    })
    &&& row.tool_reports@ == "[]"@
    &&& row.context_messages@ == "[]"@
}

/// Whether there is a session of that id.
pub open spec fn has_session(sessions: Seq<SessionRow>, session: Seq<char>) -> bool {
    exists|i: int| 0 <= i < sessions.len() && (#[trigger] sessions[i]).session_id@ == session
}

/// Whether there is a session of that id.
pub fn session_exists(sessions: &Vec<SessionRow>, session: &str) -> (r: bool)
    ensures
        r == has_session(sessions@, session@),
{
    let mut i: usize = 0;
    while i < sessions.len()
        invariant
            i <= sessions@.len(),
            forall|k: int| 0 <= k < i ==> (#[trigger] sessions@[k]).session_id@ != session@,
        decreases sessions@.len() - i,
    {
        if same_text(sessions[i].session_id.as_str(), session) {
            return true;
        }
        i += 1;
    }
    false
}

/// Whether a journal of that turn is there.
pub open spec fn has_journal(segments: Seq<SegmentRow>, turn_id: Seq<char>) -> bool {
    exists|i: int| 0 <= i < segments.len() && (#[trigger] segments[i]).turn_id@ == turn_id
}

/// Whether a journal of that turn is there.
fn journal_exists(segments: &Vec<SegmentRow>, turn_id: &str) -> (r: bool)
    ensures
        r == has_journal(segments@, turn_id@),
{
    let mut i: usize = 0;
    while i < segments.len()
        invariant
            i <= segments@.len(),
            forall|k: int| 0 <= k < i ==> (#[trigger] segments@[k]).turn_id@ != turn_id@,
        decreases segments@.len() - i,
    {
        if same_text(segments[i].turn_id.as_str(), turn_id) {
            return true;
        }
        i += 1;
    }
    false
}

/// The attachments of a run after the turn it started took them over.
pub open spec fn attachments_taken(
    attachments: Seq<AttachmentRow>,
    session: Seq<char>,
    run: Option<Seq<char>>,
    turn_id: String,
) -> Seq<AttachmentRow> {
    match run {
        Some(run) => table::changed(
            attachments,
            |row: AttachmentRow|
                row.session_id@ == session && row.run_id is Some && row.run_id->Some_0@ == run,
            |row: AttachmentRow| AttachmentRow { run_id: None, turn_id: Some(turn_id), ..row },
        ),
        None => attachments,
    }
}

/// Hands the attachments of a run to the turn it started.
fn take_attachments(
    attachments: &mut Vec<AttachmentRow>,
    session: &str,
    run: Option<&str>,
    turn_id: &String,
)
    ensures
        final(attachments)@ == attachments_taken(
            old(attachments)@,
            session@,
            match run {
                Some(run) => Some(run@),
                None => None,
            },
            *turn_id,
        ),
{
    let run = match run {
        Some(run) => run,
        None => return ,
    };
    let ghost before = attachments@;
    let ghost wanted = attachments_taken(before, session@, Some(run@), *turn_id);
    let mut i: usize = 0;
    while i < attachments.len()
        invariant
            i <= attachments@.len(),
            attachments@.len() == before.len(),
            wanted == attachments_taken(before, session@, Some(run@), *turn_id),
            forall|k: int| 0 <= k < i ==> attachments@[k] == #[trigger] wanted[k],
            forall|k: int| i <= k < before.len() ==> attachments@[k] == before[k],
        decreases attachments@.len() - i,
    {
        let of_run = match &attachments[i].run_id {
            Some(id) => same_text(id.as_str(), run),
            None => false,
        };
        if of_run && same_text(attachments[i].session_id.as_str(), session) {
            let row = &mut attachments[i];
            row.run_id = None;
            row.turn_id = Some(turn_id.clone());
        }
        i += 1;
    }
    assert(attachments@ =~= wanted);
}

/// What beginning a turn comes to: it is numbered after the last turn of its
/// session, its journal has one running segment, and the attachments of the
/// run that started it are its own.
pub open spec fn beginning(
    before: ConversationDb,
    after: ConversationDb,
    new: NewTurn,
    run: Option<Seq<char>>,
    now: String,
) -> bool {
    let seq = (latest_seq(before.turns@, new.session_id@) + 1) as i64;
    &&& after.turns@.len() == before.turns@.len() + 1
    &&& after.turns@.drop_last() == before.turns@
    &&& is_fresh(after.turns@.last(), new, seq, now)
    &&& after.segments@ == before.segments@.push(queue::begun(new.turn_id, 0, 0, now))
    &&& after.attachments@ == attachments_taken(
        before.attachments@,
        new.session_id@,
        run,
        new.turn_id,
    )
    &&& after == (ConversationDb {
        turns: after.turns,
        segments: after.segments,
        attachments: after.attachments,
        ..before
    })
}

/// What asking for a turn to begin comes to. One whose id is taken, whose
/// session is not there or that cannot be numbered is turned down.
pub open spec fn started(
    before: ConversationDb,
    after: ConversationDb,
    new: NewTurn,
    run: Option<Seq<char>>,
    now: String,
    done: Result<(), DbError>,
) -> bool {
    let known = before.turn_at(new.turn_id@) >= 0 || has_journal(before.segments@, new.turn_id@);
    let homeless = !has_session(before.sessions@, new.session_id@);
    let full = latest_seq(before.turns@, new.session_id@) == i64::MAX;
    match done {
        Ok(()) => !known && !homeless && !full && beginning(before, after, new, run, now),
        Err(DbError::DuplicateTurn) => known && after == before,
        Err(DbError::UnknownSession) => !known && homeless && after == before,
        Err(DbError::SequenceFull) => !known && !homeless && full && after == before,
        Err(_) => false,
    }
}

/// What asking for a turn to stop comes to. One that is not running stays as it
/// is.
pub open spec fn stopped(
    before: ConversationDb,
    after: ConversationDb,
    turn_id: Seq<char>,
    tokens: TurnTokens,
    snapshot: Option<Vec<ReplayEntry>>,
    now: Stamp,
    done: Result<(), DbError>,
) -> bool {
    let stuck = cannot_bump(before.turns@, before.turn_at(turn_id));
    match done {
        Ok(()) => if is_running(before, turn_id) {
            !stuck && interruption(before, after, turn_id, tokens, snapshot, now)
        } else {
            after == before
        },
        Err(e) => e == DbError::SequenceFull && is_running(before, turn_id) && stuck && after
            == before,
    }
}

/// What asking for the redo of a turn to stop comes to: it is undone where it
/// left a backup.
pub open spec fn redo_stopped(
    before: ConversationDb,
    after: ConversationDb,
    turn_id: Seq<char>,
    revision: i64,
    tokens: TurnTokens,
    snapshot: Option<Vec<ReplayEntry>>,
    now: String,
    restored: Result<bool, DbError>,
) -> bool {
    match restored {
        Ok(true) => redo::has_backup(before, turn_id, revision) && redo::runs_at(
            before,
            turn_id,
            revision,
        ) && redo::redo_undone(before, turn_id, revision, after),
        Ok(false) => !redo::has_backup(before, turn_id, revision) && redo_interruption(
            before,
            after,
            turn_id,
            revision,
            tokens,
            snapshot,
            now,
        ),
        Err(e) => e == DbError::NotRunning && redo::has_backup(before, turn_id, revision)
            && !redo::runs_at(before, turn_id, revision) && after == before,
    }
}

impl ConversationDb {
    /// Begins a turn.
    pub fn start_turn(&mut self, new: NewTurn, attachment_run_id: Option<&str>, now: &Stamp) -> (done:
        Result<(), DbError>)
        requires
            old(self).wf(),
        ensures
            final(self).wf(),
            started(
                *old(self),
                *final(self),
                new,
                match attachment_run_id {
                    Some(run) => Some(run@),
                    None => None,
                },
                now.text,
                done,
            ),
    {
        if find_turn(&self.turns, new.turn_id.as_str()).is_some() || journal_exists(
            &self.segments,
            new.turn_id.as_str(),
        ) {
            return Err(DbError::DuplicateTurn);
        }
        if !session_exists(&self.sessions, new.session_id.as_str()) {
            return Err(DbError::UnknownSession);
        }
        let latest: i64 = latest_turn_seq_in(&self.turns, new.session_id.as_str());
        if latest == i64::MAX {
            return Err(DbError::SequenceFull);
        }
        let ghost before = *self;
        take_attachments(
            &mut self.attachments,
            new.session_id.as_str(),
            attachment_run_id,
            &new.turn_id,
        );
        self.segments.push(
            SegmentRow {
                turn_id: new.turn_id.clone(),
                revision: 0,
                segment_index: 0,
                status: SegmentStatus::Running,
                started_at: now.text.clone(),
                finished_at: None,
            },
        );
        let row = TurnRow {
            turn_id: new.turn_id,
            session_id: new.session_id,
            seq: latest + 1,
            user_content: new.user_content,
            display_content: new.display_content,
            user_timestamp: now.text.clone(),
            assistant_content: new.placeholder,
            assistant_reasoning: None,
            assistant_provider_id: None,
            assistant_model: None,
            assistant_timestamp: None,
            status: TurnStatus::Running,
            tool_reports: "[]".to_owned(),
            owner_pid: Some(new.owner_pid as i64),
            queue_session_id: Some(new.queue_session_id),
            workspace: new.workspace,
            revision: 0,
            hidden: false,
            is_summary: false,
            token_total: 0,
            token_prompt: 0,
            token_cache_read: 0,
            token_usage_estimated: false,
            token_context_end: None,
            generation_tokens: 0,
            generation_ms: 0,
            context_messages: "[]".to_owned(),
            tool_flow: None,
        };
        self.turns.push(row);
        proof {
            assert(self.turns@.drop_last() =~= before.turns@);
            lemma_turn_added(before.turns@, self.turns@.last());
            lemma_journal_begun(before.segments@, self.segments@.last());
        }
        Ok(())
    }

    /// Completes a running turn.
    pub fn complete_turn_with_usage(
        &mut self,
        turn_id: &str,
        answer: Answer,
        snapshot: Option<Vec<ReplayEntry>>,
        now: &Stamp,
    ) -> (done: Result<(), DbError>)
        requires
            old(self).wf(),
        ensures
            final(self).wf(),
            completion(*old(self), *final(self), turn_id@, answer, snapshot, *now, done),
    {
        let at: usize = match find_turn(&self.turns, turn_id) {
            Some(at) => at,
            None => return Err(DbError::TurnChanged),
        };
        if self.turns[at].status != TurnStatus::Running {
            return Err(DbError::TurnChanged);
        }
        let ghost before = *self;
        proof {
            lemma_stuck_unchanged(
                before.turns@,
                at as int,
                answered(before.turns@[at as int], answer, now.text),
            );
        }
        if is_stuck(&self.turns, at) {
            return Err(DbError::SequenceFull);
        }
        let own_id = self.turns[at].turn_id.clone();
        let session = self.turns[at].session_id.clone();
        write_answer(&mut self.turns, at, answer, &now.text);
        bump_completion_seq(&mut self.turns, at);
        store_snapshot(&mut self.replays, &own_id, snapshot);
        drop_journal(&mut self.segments, &mut self.events, turn_id);
        touch_session_last_request(&mut self.sessions, session.as_str(), now.secs);
        Ok(())
    }

    /// Completes a running turn without an account of it.
    pub fn complete_turn(
        &mut self,
        turn_id: &str,
        content: String,
        reasoning: Option<String>,
        snapshot: Option<Vec<ReplayEntry>>,
        now: &Stamp,
    ) -> (done: Result<(), DbError>)
        requires
            old(self).wf(),
        ensures
            final(self).wf(),
            completion(
                *old(self),
                *final(self),
                turn_id@,
                (Answer {
                    content,
                    reasoning,
                    provider_id: None,
                    model: None,
                    tokens: TurnTokens { total: 0, prompt: 0, cache_read: 0 },
                    estimated: false,
                }),
                snapshot,
                *now,
                done,
            ),
    {
        self.complete_turn_with_usage(
            turn_id,
            Answer {
                content,
                reasoning,
                provider_id: None,
                model: None,
                tokens: TurnTokens::none(),
                estimated: false,
            },
            snapshot,
            now,
        )
    }

    /// Completes the redo of a turn.
    pub fn complete_turn_revision_with_usage(
        &mut self,
        turn_id: &str,
        revision: i64,
        answer: Answer,
        snapshot: Option<Vec<ReplayEntry>>,
        now: &Stamp,
    ) -> (done: Result<(), DbError>)
        requires
            old(self).wf(),
        ensures
            final(self).wf(),
            redo_completion(
                *old(self),
                *final(self),
                turn_id@,
                revision,
                answer,
                snapshot,
                *now,
                done,
            ),
    {
        let at: usize = match find_turn(&self.turns, turn_id) {
            Some(at) => at,
            None => return Err(DbError::RedoChanged),
        };
        if self.turns[at].status != TurnStatus::Running || self.turns[at].revision != revision {
            return Err(DbError::RedoChanged);
        }
        let own_id = self.turns[at].turn_id.clone();
        let session = self.turns[at].session_id.clone();
        write_answer(&mut self.turns, at, answer, &now.text);
        let test = |row: &BackupRow| -> (r: bool)
            ensures
                r == (row.turn_id@ == turn_id@ && row.revision == revision),
        { row.revision == revision && same_text(row.turn_id.as_str(), turn_id) };
        delete_where(
            &mut self.backups,
            test,
            Ghost(|row: BackupRow| row.turn_id@ == turn_id@ && row.revision == revision),
        );
        forget_snapshot(&mut self.replays, turn_id);
        store_snapshot(&mut self.replays, &own_id, snapshot);
        drop_journal(&mut self.segments, &mut self.events, turn_id);
        touch_session_last_request(&mut self.sessions, session.as_str(), now.secs);
        Ok(())
    }

    /// Interrupts a running turn of which nothing is known to have been used.
    pub fn interrupt_turn(
        &mut self,
        turn_id: &str,
        snapshot: Option<Vec<ReplayEntry>>,
        now: &Stamp,
    ) -> (done: Result<(), DbError>)
        requires
            old(self).wf(),
        ensures
            final(self).wf(),
            stopped(
                *old(self),
                *final(self),
                turn_id@,
                TurnTokens { total: 0, prompt: 0, cache_read: 0 },
                snapshot,
                *now,
                done,
            ),
    {
        self.interrupt_turn_with_usage(turn_id, TurnTokens::none(), snapshot, now)
    }

    /// Interrupts a turn, where it is running.
    pub fn interrupt_turn_with_usage(
        &mut self,
        turn_id: &str,
        tokens: TurnTokens,
        snapshot: Option<Vec<ReplayEntry>>,
        now: &Stamp,
    ) -> (done: Result<(), DbError>)
        requires
            old(self).wf(),
        ensures
            final(self).wf(),
            stopped(
                *old(self),
                *final(self),
                turn_id@,
                tokens,
                snapshot,
                *now,
                done,
            ),
    {
        let at: usize = match find_turn(&self.turns, turn_id) {
            Some(at) => at,
            None => return Ok(()),
        };
        if self.turns[at].status != TurnStatus::Running {
            return Ok(());
        }
        if is_stuck(&self.turns, at) {
            return Err(DbError::SequenceFull);
        }
        let ghost before = *self;
        let revision: i64 = self.turns[at].revision;
        let own_id = self.turns[at].turn_id.clone();
        let session = self.turns[at].session_id.clone();
        let answer = interrupted_projection(&self.segments, &self.events, turn_id, revision);
        write_cut_off(&mut self.turns, at, answer, tokens, &now.text);
        let ghost row = self.turns@[at as int];
        proof {
            lemma_stuck_unchanged(before.turns@, at as int, row);
        }
        bump_completion_seq(&mut self.turns, at);
        store_snapshot(&mut self.replays, &own_id, snapshot);
        cut_off_segments(&mut self.segments, turn_id, revision, &now.text);
        touch_session_last_request(&mut self.sessions, session.as_str(), now.secs);
        Ok(())
    }

    /// Interrupts the redoing of a turn of which nothing is known to have been
    /// used.
    pub fn interrupt_turn_revision(
        &mut self,
        turn_id: &str,
        revision: i64,
        snapshot: Option<Vec<ReplayEntry>>,
        now: &Stamp,
    ) -> (restored: Result<bool, DbError>)
        requires
            old(self).wf(),
        ensures
            final(self).wf(),
            redo_stopped(
                *old(self),
                *final(self),
                turn_id@,
                revision,
                TurnTokens { total: 0, prompt: 0, cache_read: 0 },
                snapshot,
                now.text,
                restored,
            ),
    {
        self.interrupt_turn_revision_with_usage(
            turn_id,
            revision,
            TurnTokens::none(),
            snapshot,
            now,
        )
    }

    /// Interrupts the redo of a turn: it is undone where it left a backup, and
    /// is interrupted in place where it did not. Says whether it was undone.
    pub fn interrupt_turn_revision_with_usage(
        &mut self,
        turn_id: &str,
        revision: i64,
        tokens: TurnTokens,
        snapshot: Option<Vec<ReplayEntry>>,
        now: &Stamp,
    ) -> (restored: Result<bool, DbError>)
        requires
            old(self).wf(),
        ensures
            final(self).wf(),
            redo_stopped(
                *old(self),
                *final(self),
                turn_id@,
                revision,
                tokens,
                snapshot,
                now.text,
                restored,
            ),
    {
        match self.restore_redo_backup(turn_id, revision) {
            Ok(true) => return Ok(true),
            Ok(false) => {},
            Err(e) => return Err(e),
        }
        let answer = interrupted_projection(&self.segments, &self.events, turn_id, revision);
        match find_turn(&self.turns, turn_id) {
            Some(at) => {
                let own_id = self.turns[at].turn_id.clone();
                if self.turns[at].revision == revision && self.turns[at].status
                    == TurnStatus::Running {
                    write_cut_off(&mut self.turns, at, answer, tokens, &now.text);
                }
                store_snapshot(&mut self.replays, &own_id, snapshot);
            },
            None => {},
        }
        cut_off_segments(&mut self.segments, turn_id, revision, &now.text);
        Ok(false)
    }
}

/// What interrupting a redo without a backup comes to.
pub open spec fn redo_interruption(
    before: ConversationDb,
    after: ConversationDb,
    turn_id: Seq<char>,
    revision: i64,
    tokens: TurnTokens,
    snapshot: Option<Vec<ReplayEntry>>,
    now: String,
) -> bool {
    let at = before.turn_at(turn_id);
    let turn = before.turns@[at];
    let answer = projection::interrupted_answer(before.segments@, before.events@, turn_id, revision);
    &&& if redo::runs_at(before, turn_id, revision) {
        after.turns@ == before.turns@.update(at, after.turns@[at]) && cut_off(
            turn,
            after.turns@[at],
            answer,
            tokens,
            now,
        )
    } else {
        after.turns == before.turns
    }
    &&& after.replays@ == (if at >= 0 {
        with_snapshot(before.replays@, turn.turn_id, snapshot)
    } else {
        before.replays@
    })
    &&& after.segments@ == segments_cut_off(before.segments@, turn_id, revision, now)
    &&& after == (ConversationDb {
        turns: after.turns,
        replays: after.replays,
        segments: after.segments,
        ..before
    })
}

proof fn lemma_turn_added(turns: Seq<TurnRow>, row: TurnRow)
    requires
        super::turns_ordered(turns),
        forall|i: int| 0 <= i < turns.len() ==> (#[trigger] turns[i]).turn_id@ != row.turn_id@,
        row.seq > latest_seq(turns, row.session_id@),
    ensures
        super::turns_ordered(turns.push(row)),
{
    let session = row.session_id@;
    lemma_last_turn(turns, session, turns.len() as int);
    let last = last_turn(turns, session, turns.len() as int);
    let after = turns.push(row);
    assert forall|i: int, j: int| 0 <= i < j < after.len() implies #[trigger] after[i].turn_id@
        != #[trigger] after[j].turn_id@ by {
        assert(after[i] == turns[i]);
        if j < turns.len() {
            assert(turns[i].turn_id@ != turns[j].turn_id@);
        }
    }
    assert forall|i: int, j: int|
        0 <= i < j < after.len() && #[trigger] after[i].session_id@
            == #[trigger] after[j].session_id@ implies after[i].seq < after[j].seq by {
        assert(after[i] == turns[i]);
        if j < turns.len() {
            assert(turns[i].session_id@ == turns[j].session_id@);
        } else {
            assert(i <= last);
            if i < last {
                assert(turns[i].session_id@ == turns[last].session_id@);
            }
        }
    }
}

proof fn lemma_journal_begun(segments: Seq<SegmentRow>, row: SegmentRow)
    requires
        super::segments_ordered(segments),
        !has_journal(segments, row.turn_id@),
    ensures
        super::segments_ordered(segments.push(row)),
{
    let after = segments.push(row);
    assert forall|i: int, j: int|
        0 <= i < j < after.len() && #[trigger] after[i].turn_id@ == #[trigger] after[j].turn_id@
            && after[i].revision == after[j].revision implies after[i].segment_index
        < after[j].segment_index by {
        assert(after[i] == segments[i]);
        if j < segments.len() {
            assert(segments[i].turn_id@ == segments[j].turn_id@);
        }
    }
}

/// Whether a turn can be moved does not depend on what is written into it.
proof fn lemma_stuck_unchanged(turns: Seq<TurnRow>, at: int, ended: TurnRow)
    requires
        0 <= at < turns.len(),
        ended.session_id == turns[at].session_id,
        ended.seq == turns[at].seq,
        ended.revision == turns[at].revision,
    ensures
        overtaken(turns.update(at, ended), at) == overtaken(turns, at),
        cannot_bump(turns.update(at, ended), at) == cannot_bump(turns, at),
        latest_seq(turns.update(at, ended), ended.session_id@) == latest_seq(
            turns,
            ended.session_id@,
        ),
{
    let now = turns.update(at, ended);
    lemma_last_turn_unchanged(turns, at, ended, ended.session_id@, turns.len() as int);
    lemma_last_turn(turns, ended.session_id@, turns.len() as int);
    if later_ended(turns, at) {
        let j = choose|j: int|
            at < j < turns.len() && (#[trigger] turns[j]).session_id@ == turns[at].session_id@
                && turns[j].status != TurnStatus::Running;
        assert(now[j] == turns[j]);
    }
    if later_ended(now, at) {
        let j = choose|j: int|
            at < j < now.len() && (#[trigger] now[j]).session_id@ == now[at].session_id@
                && now[j].status != TurnStatus::Running;
        assert(now[j] == turns[j]);
    }
}

proof fn lemma_last_turn_unchanged(
    turns: Seq<TurnRow>,
    at: int,
    ended: TurnRow,
    session: Seq<char>,
    n: int,
)
    requires
        0 <= at < turns.len(),
        0 <= n <= turns.len(),
        ended.session_id == turns[at].session_id,
    ensures
        last_turn(turns.update(at, ended), session, n) == last_turn(turns, session, n),
    decreases n,
{
    if n > 0 {
        lemma_last_turn_unchanged(turns, at, ended, session, n - 1);
    }
}

// ---------------------------------------------------------------------------
// Laws
// ---------------------------------------------------------------------------

/// The time of the last request of a session never goes back, and those of
/// other sessions stay.
pub proof fn requests_are_touched_forward(
    sessions: Seq<SessionRow>,
    session: Seq<char>,
    secs: i64,
    i: int,
)
    requires
        0 <= i < sessions.len(),
    ensures
        touched(sessions, session, secs).len() == sessions.len(),
        ({
            let before = sessions[i];
            let after = touched(sessions, session, secs)[i];
            &&& before.session_id@ != session ==> after == before
            &&& before.session_id@ == session ==> {
                let was = match before.last_request_at {
                    Some(at) => at,
                    None => 0,
                };
                &&& after == (SessionRow { last_request_at: after.last_request_at, ..before })
                &&& after.last_request_at == Some(
                    if secs > was {
                        secs
                    } else {
                        was
                    },
                )
            }
        }),
{
}

/// What a turn showed is kept in place of what was kept of it before, and what
/// other turns showed stays, in order.
pub proof fn the_latest_snapshot_is_kept(
    replays: Seq<ReplayRow>,
    turn_id: String,
    snapshot: Option<Vec<ReplayEntry>>,
)
    ensures
        snapshot is None ==> with_snapshot(replays, turn_id, snapshot) == replays,
        snapshot matches Some(entries) ==> {
            let after = with_snapshot(replays, turn_id, snapshot);
            &&& after.len() > 0
            &&& after.last() == (ReplayRow { turn_id, entries })
            &&& table::is_rest(
                replays,
                after.drop_last(),
                |row: ReplayRow| row.turn_id@ == turn_id@,
            )
        },
{
    if let Some(entries) = snapshot {
        let gone = |row: ReplayRow| row.turn_id@ == turn_id@;
        let after = with_snapshot(replays, turn_id, snapshot);
        assert(after.drop_last() =~= table::without(replays, gone));
        table::lemma_rest(replays, gone, gone);
    }
}

/// The segments of a generation that are running are cut off now; every other
/// segment stays.
pub proof fn running_segments_are_cut_off(
    segments: Seq<SegmentRow>,
    turn_id: Seq<char>,
    revision: i64,
    now: String,
    i: int,
)
    requires
        0 <= i < segments.len(),
    ensures
        segments_cut_off(segments, turn_id, revision, now).len() == segments.len(),
        ({
            let before = segments[i];
            let after = segments_cut_off(segments, turn_id, revision, now)[i];
            if before.turn_id@ == turn_id && before.revision == revision && before.status
                == SegmentStatus::Running {
                after == (SegmentRow {
                    status: SegmentStatus::Interrupted,
                    finished_at: Some(now),
                    ..before
                })
            } else {
                after == before
            }
        }),
{
}

} // verus!
