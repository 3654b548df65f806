//! What recovering a turn leaves as it was, and the numbers that it needs.

use vstd::prelude::*;

use crate::json;
use crate::table;

use super::queue;
use super::redo;
use super::restart;
use super::rows::{
    BackupRow, EventRow, PromptRow, PromptStatus, ReplayEntry, SegmentRow, TurnRedoBackup, TurnRow,
    TurnStatus,
};
use super::running::{self, StaleTurnRecovery};
use super::turns;
use super::ConversationDb;

verus! {

// ---------------------------------------------------------------------------
// What stays
// ---------------------------------------------------------------------------

/// Every turn but one is still there as it was.
pub open spec fn others_kept(before: Seq<TurnRow>, after: Seq<TurnRow>, turn_id: Seq<char>) -> bool {
    forall|row: TurnRow| #[trigger]
        before.contains(row) && row.turn_id@ != turn_id ==> after.contains(row)
}

/// Whether a generation has the same backup in both, or none in either.
pub open spec fn same_backup(
    before: Seq<BackupRow>,
    after: Seq<BackupRow>,
    turn_id: Seq<char>,
    revision: i64,
) -> bool {
    let a = redo::backup_index(before, turn_id, revision, before.len() as int);
    let b = redo::backup_index(after, turn_id, revision, after.len() as int);
    &&& (a >= 0) == (b >= 0)
    &&& a >= 0 ==> after[b] == before[a]
}

/// Whether a generation has a segment with the highest index there is.
pub open spec fn has_top(segments: Seq<SegmentRow>, turn_id: Seq<char>, revision: i64) -> bool {
    exists|i: int|
        0 <= i < segments.len() && queue::of_generation(#[trigger] segments[i], turn_id, revision)
            && segments[i].segment_index == i64::MAX
}

/// Whether nothing of the turns other than `turn_id` was changed: their rows,
/// their backups, their events and the last indices of their journals.
pub open spec fn others_left(before: ConversationDb, after: ConversationDb, turn_id: Seq<char>) -> bool {
    &&& others_kept(before.turns@, after.turns@, turn_id)
    &&& forall|id: Seq<char>, revision: i64|
        id != turn_id ==> #[trigger] same_backup(before.backups@, after.backups@, id, revision)
    &&& forall|id: Seq<char>, kind: Seq<char>|
        id != turn_id ==> (#[trigger] restart::has_event(after.events@, id, kind)
            == restart::has_event(before.events@, id, kind))
    &&& forall|id: Seq<char>, revision: i64|
        id != turn_id ==> (#[trigger] has_top(after.segments@, id, revision) == has_top(
            before.segments@,
            id,
            revision,
        ))
}

/// Whether a message waits in a queue.
pub open spec fn waits(db: ConversationDb, queue: Seq<char>) -> bool {
    queue::any_waiting(db, Some(queue))
}

/// Whether `row` is a turn after it was closed: its tokens are what they were.
pub open spec fn is_closed(turn: TurnRow, row: TurnRow) -> bool {
    row == (TurnRow {
        assistant_content: row.assistant_content,
        assistant_reasoning: row.assistant_reasoning,
        assistant_timestamp: row.assistant_timestamp,
        status: TurnStatus::Interrupted,
        seq: row.seq,
        ..turn
    })
}

/// The last segment of a generation has the highest index there is where any
/// has.
proof fn lemma_top(segments: Seq<SegmentRow>, turn_id: Seq<char>, revision: i64)
    requires
        super::segments_ordered(segments),
    ensures
        ({
            let at = queue::last_segment(segments, turn_id, revision, segments.len() as int);
            has_top(segments, turn_id, revision) == (at >= 0 && segments[at].segment_index
                == i64::MAX)
        }),
{
    let at = queue::last_segment(segments, turn_id, revision, segments.len() as int);
    queue::lemma_last_segment(segments, turn_id, revision, segments.len() as int);
    if has_top(segments, turn_id, revision) {
        let i = choose|i: int|
            0 <= i < segments.len() && queue::of_generation(
                #[trigger] segments[i],
                turn_id,
                revision,
            ) && segments[i].segment_index == i64::MAX;
        if i < at {
            assert(segments[i].turn_id@ == segments[at].turn_id@);
        }
    }
}

/// Whether the segments of turns other than `turn_id` are among others, as far
/// as their indices go.
spec fn covers(a: Seq<SegmentRow>, b: Seq<SegmentRow>, turn_id: Seq<char>) -> bool {
    forall|i: int|
        0 <= i < a.len() && (#[trigger] a[i]).turn_id@ != turn_id ==> has_key_of(b, a[i])
}

spec fn has_key_of(segments: Seq<SegmentRow>, segment: SegmentRow) -> bool {
    exists|j: int|
        0 <= j < segments.len() && (#[trigger] segments[j]).turn_id@ == segment.turn_id@
            && segments[j].revision == segment.revision && segments[j].segment_index
            == segment.segment_index
}

proof fn lemma_covered_top(a: Seq<SegmentRow>, b: Seq<SegmentRow>, turn_id: Seq<char>)
    requires
        covers(a, b, turn_id),
        covers(b, a, turn_id),
    ensures
        forall|id: Seq<char>, revision: i64|
            id != turn_id ==> (#[trigger] has_top(b, id, revision) == has_top(a, id, revision)),
{
    assert forall|id: Seq<char>, revision: i64| id != turn_id implies (#[trigger] has_top(
        b,
        id,
        revision,
    ) == has_top(a, id, revision)) by {
        if has_top(a, id, revision) {
            lemma_top_carries(a, b, turn_id, id, revision);
        }
        if has_top(b, id, revision) {
            lemma_top_carries(b, a, turn_id, id, revision);
        }
    }
}

proof fn lemma_top_carries(
    a: Seq<SegmentRow>,
    b: Seq<SegmentRow>,
    turn_id: Seq<char>,
    id: Seq<char>,
    revision: i64,
)
    requires
        covers(a, b, turn_id),
        id != turn_id,
        has_top(a, id, revision),
    ensures
        has_top(b, id, revision),
{
    let i = choose|i: int|
        0 <= i < a.len() && queue::of_generation(#[trigger] a[i], id, revision)
            && a[i].segment_index == i64::MAX;
    assert(has_key_of(b, a[i]));
    let j = choose|j: int|
        0 <= j < b.len() && (#[trigger] b[j]).turn_id@ == a[i].turn_id@ && b[j].revision
            == a[i].revision && b[j].segment_index == a[i].segment_index;
    assert(queue::of_generation(b[j], id, revision));
}

/// Deleting segments of a turn leaves those of others.
proof fn lemma_without_covers(
    segments: Seq<SegmentRow>,
    chosen: spec_fn(SegmentRow) -> bool,
    turn_id: Seq<char>,
)
    requires
        forall|row: SegmentRow| #[trigger] chosen(row) ==> row.turn_id@ == turn_id,
    ensures
        covers(segments, table::without(segments, chosen), turn_id),
        covers(table::without(segments, chosen), segments, turn_id),
{
    let left = table::without(segments, chosen);
    let place = table::lemma_without_embeds(segments, chosen);
    assert forall|i: int| 0 <= i < left.len() implies has_key_of(
        segments,
        #[trigger] left[i],
    ) by {
        assert(left[i] == segments[place(i)]);
    }
    assert forall|i: int|
        0 <= i < segments.len() && (#[trigger] segments[i]).turn_id@ != turn_id implies has_key_of(
        left,
        segments[i],
    ) by {
        assert(!chosen(segments[i]));
        segments.lemma_filter_contains(|row: SegmentRow| !chosen(row), i);
        let j = choose|j: int| 0 <= j < left.len() && left[j] == segments[i];
        assert(left[j].turn_id@ == segments[i].turn_id@);
    }
}

/// Taking in messages changes the journal of the turn alone.
proof fn lemma_taking_covers(
    before: ConversationDb,
    mid: ConversationDb,
    queue: Seq<char>,
    turn_id: String,
    revision: i64,
    now: String,
)
    requires
        before.wf(),
        queue::waiting_taken(before, mid, queue, turn_id, revision, now),
    ensures
        covers(before.segments@, mid.segments@, turn_id@),
        covers(mid.segments@, before.segments@, turn_id@),
{
    let a = before.segments@;
    let with = queue::with_first(a, turn_id, revision, now);
    let b = mid.segments@;
    queue::lemma_last_with_first(a, turn_id, revision, now);
    queue::lemma_last_segment(with, turn_id@, revision, with.len() as int);
    queue::lemma_first_place(a, turn_id@, revision, 0);
    let p = if queue::has_first(a, turn_id@, revision) {
        a.len() as int
    } else {
        queue::first_place(a, turn_id@, revision, 0)
    };
    assert(b.len() == with.len() + 1);
    assert forall|k: int| 0 <= k < with.len() implies (#[trigger] b[k]).turn_id == with[k].turn_id
        && b[k].revision == with[k].revision && b[k].segment_index == with[k].segment_index by {}
    assert forall|i: int|
        0 <= i < a.len() && (#[trigger] a[i]).turn_id@ != turn_id@ implies has_key_of(b, a[i]) by {
        let k = if i < p {
            i
        } else {
            i + 1
        };
        assert(with[k] == a[i]);
        assert(b[k].turn_id@ == a[i].turn_id@);
    }
    assert forall|k: int|
        0 <= k < b.len() && (#[trigger] b[k]).turn_id@ != turn_id@ implies has_key_of(a, b[k]) by {
        assert(k < with.len());
        assert(k != p || queue::has_first(a, turn_id@, revision));
        let i = if k < p {
            k
        } else {
            k - 1
        };
        assert(with[k] == a[i]);
        assert(a[i].turn_id@ == b[k].turn_id@);
    }
}

proof fn lemma_covers_through(
    a: Seq<SegmentRow>,
    b: Seq<SegmentRow>,
    c: Seq<SegmentRow>,
    turn_id: Seq<char>,
)
    requires
        covers(a, b, turn_id),
        b.len() == c.len(),
        forall|k: int|
            0 <= k < b.len() ==> (#[trigger] c[k]).turn_id == b[k].turn_id && c[k].revision
                == b[k].revision && c[k].segment_index == b[k].segment_index,
    ensures
        covers(a, c, turn_id),
{
    assert forall|i: int|
        0 <= i < a.len() && (#[trigger] a[i]).turn_id@ != turn_id implies has_key_of(c, a[i]) by {
        assert(has_key_of(b, a[i]));
        let j = choose|j: int|
            0 <= j < b.len() && (#[trigger] b[j]).turn_id@ == a[i].turn_id@ && b[j].revision
                == a[i].revision && b[j].segment_index == a[i].segment_index;
        assert(c[j].turn_id@ == a[i].turn_id@);
    }
}

proof fn lemma_covers_back(
    a: Seq<SegmentRow>,
    b: Seq<SegmentRow>,
    c: Seq<SegmentRow>,
    turn_id: Seq<char>,
)
    requires
        covers(b, a, turn_id),
        b.len() == c.len(),
        forall|k: int|
            0 <= k < b.len() ==> (#[trigger] c[k]).turn_id == b[k].turn_id && c[k].revision
                == b[k].revision && c[k].segment_index == b[k].segment_index,
    ensures
        covers(c, a, turn_id),
{
    assert forall|k: int|
        0 <= k < c.len() && (#[trigger] c[k]).turn_id@ != turn_id implies has_key_of(a, c[k]) by {
        assert(has_key_of(a, b[k]));
    }
}

/// The place of a backup among the first backups does not depend on those that
/// follow.
proof fn lemma_backup_prefix(
    backups: Seq<BackupRow>,
    more: Seq<BackupRow>,
    turn_id: Seq<char>,
    revision: i64,
    n: int,
)
    requires
        0 <= n <= backups.len() <= more.len(),
        forall|i: int| 0 <= i < backups.len() ==> #[trigger] more[i] == backups[i],
    ensures
        redo::backup_index(more, turn_id, revision, n) == redo::backup_index(
            backups,
            turn_id,
            revision,
            n,
        ),
        -1 <= redo::backup_index(backups, turn_id, revision, n) < n,
    decreases n,
{
    if n > 0 {
        lemma_backup_prefix(backups, more, turn_id, revision, n - 1);
        assert(more[n - 1] == backups[n - 1]);
    }
}

/// Deleting backups of a turn leaves those of others.
proof fn lemma_backup_stays(
    backups: Seq<BackupRow>,
    chosen: spec_fn(BackupRow) -> bool,
    turn_id: Seq<char>,
    revision: i64,
)
    requires
        forall|row: BackupRow| #[trigger] chosen(row) ==> row.turn_id@ != turn_id,
    ensures
        same_backup(backups, table::without(backups, chosen), turn_id, revision),
    decreases backups.len(),
{
    reveal(Seq::filter);
    if backups.len() > 0 {
        let less = backups.drop_last();
        let last = backups[backups.len() - 1];
        let left = table::without(less, chosen);
        let all = table::without(backups, chosen);
        lemma_backup_stays(less, chosen, turn_id, revision);
        lemma_backup_prefix(less, backups, turn_id, revision, less.len() as int);
        assert(all =~= if chosen(last) {
            left
        } else {
            left.push(last)
        });
        lemma_backup_prefix(left, all, turn_id, revision, left.len() as int);
    }
}

/// Deleting events of a turn leaves those of others.
proof fn lemma_events_stay(
    events: Seq<EventRow>,
    chosen: spec_fn(EventRow) -> bool,
    turn_id: Seq<char>,
    id: Seq<char>,
    kind: Seq<char>,
)
    requires
        forall|row: EventRow| #[trigger] chosen(row) ==> row.turn_id@ == turn_id,
        id != turn_id,
    ensures
        restart::has_event(table::without(events, chosen), id, kind) == restart::has_event(
            events,
            id,
            kind,
        ),
{
    let left = table::without(events, chosen);
    if restart::has_event(left, id, kind) {
        let k = choose|k: int|
            0 <= k < left.len() && (#[trigger] left[k]).turn_id@ == id && left[k].kind@ == kind;
        let place = table::lemma_without_embeds(events, chosen);
        assert(left[k] == events[place(k)]);
    }
    if restart::has_event(events, id, kind) {
        let k = choose|k: int|
            0 <= k < events.len() && (#[trigger] events[k]).turn_id@ == id && events[k].kind@
                == kind;
        assert(!chosen(events[k]));
        events.lemma_filter_contains(|row: EventRow| !chosen(row), k);
        let j = choose|j: int| 0 <= j < left.len() && left[j] == events[k];
        assert(left[j].turn_id@ == id);
    }
}

/// An event of another turn or kind changes nothing.
proof fn lemma_event_added(before: Seq<EventRow>, after: Seq<EventRow>, id: Seq<char>, kind: Seq<char>)
    requires
        after.len() == before.len() + 1,
        after.drop_last() == before,
        after.last().turn_id@ != id || after.last().kind@ != kind,
    ensures
        restart::has_event(after, id, kind) == restart::has_event(before, id, kind),
{
    assert forall|k: int| 0 <= k < before.len() implies #[trigger] after[k] == before[k] by {
        assert(after.drop_last()[k] == after[k]);
    }
    if restart::has_event(after, id, kind) {
        let k = choose|k: int|
            0 <= k < after.len() && (#[trigger] after[k]).turn_id@ == id && after[k].kind@ == kind;
        assert(k < before.len());
        assert(before[k].turn_id@ == id);
    }
    if restart::has_event(before, id, kind) {
        let k = choose|k: int|
            0 <= k < before.len() && (#[trigger] before[k]).turn_id@ == id && before[k].kind@
                == kind;
        assert(after[k].turn_id@ == id);
    }
}

/// Changing a turn leaves the others as they were.
pub proof fn lemma_updated_keeps(turns: Seq<TurnRow>, at: int, row: TurnRow)
    requires
        0 <= at < turns.len(),
        row.turn_id == turns[at].turn_id,
    ensures
        others_kept(turns, turns.update(at, row), row.turn_id@),
{
    assert forall|other: TurnRow| #[trigger]
        turns.contains(other) && other.turn_id@ != row.turn_id@ implies turns.update(
        at,
        row,
    ).contains(other) by {
        let i = choose|i: int| 0 <= i < turns.len() && turns[i] == other;
        assert(turns.update(at, row)[i] == other);
    }
}

/// Going to the end of its session leaves the other turns as they were.
pub proof fn lemma_bumped_keeps(turns: Seq<TurnRow>, at: int, row: TurnRow)
    requires
        0 <= at < turns.len(),
        row.turn_id == turns[at].turn_id,
    ensures
        others_kept(turns, turns::bumped(turns.update(at, row), at), row.turn_id@),
{
    let now = turns.update(at, row);
    let after = turns::bumped(now, at);
    assert forall|other: TurnRow| #[trigger]
        turns.contains(other) && other.turn_id@ != row.turn_id@ implies after.contains(other) by {
        let i = choose|i: int| 0 <= i < turns.len() && turns[i] == other;
        assert(i != at);
        if turns::overtaken(now, at) {
            let k = if i < at {
                i
            } else {
                i - 1
            };
            assert(after[k] == turns[i]);
        } else {
            assert(after[i] == turns[i]);
        }
    }
}

/// Undoing a redo leaves the messages that wait.
proof fn lemma_undoing_waits(before: ConversationDb, after: ConversationDb, turn_id: Seq<char>, revision: i64, queue: Seq<char>)
    requires
        redo::redo_undone(before, turn_id, revision, after),
    ensures
        waits(after, queue) == waits(before, queue),
{
    let backup = before.backups@[redo::backup_index(
        before.backups@,
        turn_id,
        revision,
        before.backups@.len() as int,
    )].backup;
    let original = backup.consumed_prompt_ids@;
    let a = before.prompts@;
    let kept = redo::prompts_kept(a, turn_id, original);
    let b = after.prompts@;
    let chosen = |row: PromptRow|
        redo::taken_into(row, turn_id) && !crate::text::listed(original, row.prompt_id@);
    assert(kept == table::without(a, chosen));
    let place = table::lemma_without_embeds(a, chosen);
    queue::lemma_waiting_ids(a, queue, a.len() as int);
    queue::lemma_waiting_ids(b, queue, b.len() as int);
    redo::lemma_last_taken(kept, turn_id, kept.len() as int);
    assert(b.len() == kept.len());
    assert forall|k: int| 0 <= k < b.len() implies queue::waits_in(#[trigger] b[k], queue)
        == queue::waits_in(kept[k], queue) by {}
    if waits(after, queue) {
        let k = choose|k: int| 0 <= k < b.len() && queue::waits_in(#[trigger] b[k], queue);
        assert(kept[k] == a[place(k)]);
        assert(queue::waits_in(a[place(k)], queue));
    }
    if waits(before, queue) {
        let k = choose|k: int| 0 <= k < a.len() && queue::waits_in(#[trigger] a[k], queue);
        assert(!chosen(a[k]));
        a.lemma_filter_contains(|row: PromptRow| !chosen(row), k);
        let j = choose|j: int| 0 <= j < kept.len() && kept[j] == a[k];
        assert(queue::waits_in(b[j], queue));
    }
}

/// A turn takes in what waits in its queue, and leaves what waits in others.
proof fn lemma_taking_waits(
    before: ConversationDb,
    mid: ConversationDb,
    own: Seq<char>,
    turn_id: String,
    revision: i64,
    now: String,
    queue: Seq<char>,
)
    requires
        queue::waiting_taken(before, mid, own, turn_id, revision, now),
    ensures
        waits(mid, queue) == (waits(before, queue) && queue != own),
{
    let a = before.prompts@;
    let b = mid.prompts@;
    queue::lemma_waiting_ids(a, queue, a.len() as int);
    queue::lemma_waiting_ids(b, queue, b.len() as int);
    assert forall|k: int| 0 <= k < a.len() implies queue::waits_in(#[trigger] b[k], queue) == (
    queue::waits_in(a[k], queue) && queue != own) by {
        if queue::waits_in(a[k], own) {
            assert(b[k].status == PromptStatus::Consumed);
        }
    }
    if waits(mid, queue) {
        let k = choose|k: int| 0 <= k < b.len() && queue::waits_in(#[trigger] b[k], queue);
        assert(queue::waits_in(a[k], queue));
    }
    if waits(before, queue) && queue != own {
        let k = choose|k: int| 0 <= k < a.len() && queue::waits_in(#[trigger] a[k], queue);
        assert(queue::waits_in(b[k], queue));
    }
}

/// What recovering a turn changes and what it leaves.
pub proof fn lemma_recovered<F: Fn(&ConversationDb, &String) -> Option<Vec<ReplayEntry>>>(
    before: ConversationDb,
    after: ConversationDb,
    turn: TurnRow,
    restored: bool,
    gather: F,
    now: String,
)
    requires
        before.wf(),
        before.turns@.contains(turn),
        running::recovered(before, after, turn, restored, gather, now),
    ensures
        others_left(before, after, turn.turn_id@),
        restored == redo::has_backup(before, turn.turn_id@, turn.revision),
        restored ==> after.turns@ == before.turns@.update(
            before.turn_at(turn.turn_id@),
            redo::turn_restored(turn, backup_of(before, turn)),
        ),
        !restored ==> exists|row: TurnRow| #[trigger]
            is_closed(turn, row) && row.seq == turn.seq && after.turns@ == turns::bumped(
                before.turns@.update(before.turn_at(turn.turn_id@), row),
                before.turn_at(turn.turn_id@),
            ),
        !restored ==> restart::has_event(
            after.events@,
            turn.turn_id@,
            restart::RESTART_ORPHANED_EVENT@,
        ) && restart::has_event(after.events@, turn.turn_id@, restart::RESTART_RESUME_EVENT@)
            == restart::has_event(
            before.events@,
            turn.turn_id@,
            restart::RESTART_RESUME_EVENT@,
        ),
        forall|queue: Seq<char>| #[trigger]
            waits(after, queue) == (waits(before, queue) && (restored || json::opt_text(
                turn.queue_session_id,
            ) != Some(queue))),
{
    let id = turn.turn_id@;
    running::lemma_found(before.turns@, turn);
    if restored {
        lemma_redo_undone(before, after, id, turn.revision);
        assert forall|queue: Seq<char>| #[trigger] waits(after, queue) == waits(before, queue) by {
            lemma_undoing_waits(before, after, id, turn.revision, queue);
        }
    } else {
        lemma_stale_closed(before, after, turn, gather, now);
    }
}

/// The backup that a turn left.
pub open spec fn backup_of(db: ConversationDb, turn: TurnRow) -> TurnRedoBackup {
    db.backups@[redo::backup_index(
        db.backups@,
        turn.turn_id@,
        turn.revision,
        db.backups@.len() as int,
    )].backup
}

proof fn lemma_redo_undone(
    before: ConversationDb,
    after: ConversationDb,
    turn_id: Seq<char>,
    revision: i64,
)
    requires
        0 <= before.turn_at(turn_id) < before.turns@.len(),
        before.turns@[before.turn_at(turn_id)].turn_id@ == turn_id,
        redo::redo_undone(before, turn_id, revision, after),
    ensures
        others_left(before, after, turn_id),
{
    let at = before.turn_at(turn_id);
    assert forall|row: TurnRow| #[trigger]
        before.turns@.contains(row) && row.turn_id@ != turn_id implies after.turns@.contains(
        row,
    ) by {
        let i = choose|i: int| 0 <= i < before.turns@.len() && before.turns@[i] == row;
        assert(i != at);
        assert(after.turns@[i] == row);
    }
    assert forall|other: Seq<char>, r: i64| other != turn_id implies #[trigger] same_backup(
        before.backups@,
        after.backups@,
        other,
        r,
    ) by {
        lemma_backup_stays(
            before.backups@,
            redo::backups_of(turn_id, revision),
            other,
            r,
        );
    }
    assert forall|other: Seq<char>, kind: Seq<char>| other != turn_id implies (
    #[trigger] restart::has_event(after.events@, other, kind) == restart::has_event(
        before.events@,
        other,
        kind,
    )) by {
        lemma_events_stay(
            before.events@,
            redo::events_of(turn_id, revision),
            turn_id,
            other,
            kind,
        );
    }
    lemma_without_covers(
        before.segments@,
        redo::segments_of(turn_id, revision),
        turn_id,
    );
    lemma_covered_top(before.segments@, after.segments@, turn_id);
}

proof fn lemma_stale_closed<F: Fn(&ConversationDb, &String) -> Option<Vec<ReplayEntry>>>(
    before: ConversationDb,
    after: ConversationDb,
    turn: TurnRow,
    gather: F,
    now: String,
)
    requires
        before.wf(),
        before.turns@.contains(turn),
        running::stale_closed(before, after, turn, gather, now),
    ensures
        others_left(before, after, turn.turn_id@),
        exists|row: TurnRow| #[trigger]
            is_closed(turn, row) && row.seq == turn.seq && after.turns@ == turns::bumped(
                before.turns@.update(before.turn_at(turn.turn_id@), row),
                before.turn_at(turn.turn_id@),
            ),
        restart::has_event(after.events@, turn.turn_id@, restart::RESTART_ORPHANED_EVENT@),
        restart::has_event(after.events@, turn.turn_id@, restart::RESTART_RESUME_EVENT@)
            == restart::has_event(
            before.events@,
            turn.turn_id@,
            restart::RESTART_RESUME_EVENT@,
        ),
        forall|queue: Seq<char>| #[trigger]
            waits(after, queue) == (waits(before, queue) && json::opt_text(turn.queue_session_id)
                != Some(queue)),
{
    let id = turn.turn_id@;
    let revision = turn.revision;
    let (mid, row, closed, snapshot, cut) = choose|
        mid: ConversationDb,
        row: TurnRow,
        closed: ConversationDb,
        snapshot: Option<Vec<ReplayEntry>>,
        cut: ConversationDb,
    |
        #![trigger running::stale_steps(before, mid, row, closed, snapshot, cut, after, turn, gather, now)]
        running::stale_steps(before, mid, row, closed, snapshot, cut, after, turn, gather, now);
    assert(took_in(before, mid, turn, now));
    assert(mid.turns == before.turns && mid.backups == before.backups);
    running::lemma_found(before.turns@, turn);
    let at = before.turn_at(id);
    assert(is_closed(turn, row));
    lemma_bumped_keeps(before.turns@, at, row);
    assert(after.turns@ == closed.turns@);
    lemma_closed_journal(before, mid, after.segments@, turn, now);
    lemma_closed_events(before, mid, after.events@, turn, now);
    assert(after.prompts == mid.prompts);
    lemma_closed_waits(before, mid, after, turn, now);
}

/// Whether `mid` is `before` once the messages were taken in that wait for a
/// turn.
spec fn took_in(before: ConversationDb, mid: ConversationDb, turn: TurnRow, now: String) -> bool {
    if queue::any_waiting(before, json::opt_text(turn.queue_session_id)) {
        queue::waiting_taken(
            before,
            mid,
            turn.queue_session_id->Some_0@,
            turn.turn_id,
            turn.revision,
            now,
        )
    } else {
        mid == before
    }
}

/// Closing a turn changes the journal of that turn alone.
proof fn lemma_closed_journal(
    before: ConversationDb,
    mid: ConversationDb,
    segments: Seq<SegmentRow>,
    turn: TurnRow,
    now: String,
)
    requires
        before.wf(),
        took_in(before, mid, turn, now),
        segments == turns::segments_cut_off(mid.segments@, turn.turn_id@, turn.revision, now),
    ensures
        forall|id: Seq<char>, revision: i64|
            id != turn.turn_id@ ==> (#[trigger] has_top(segments, id, revision) == has_top(
                before.segments@,
                id,
                revision,
            )),
{
    let id = turn.turn_id@;
    let s = mid.segments@;
    let own = json::opt_text(turn.queue_session_id);
    if queue::any_waiting(before, own) {
        lemma_taking_covers(before, mid, own->Some_0, turn.turn_id, turn.revision, now);
    } else {
        assert forall|i: int| 0 <= i < s.len() implies has_key_of(s, #[trigger] s[i]) by {
            assert(s[i].turn_id@ == s[i].turn_id@);
        }
    }
    assert(segments.len() == s.len());
    assert forall|k: int| 0 <= k < s.len() implies (#[trigger] segments[k]).turn_id == s[k].turn_id
        && segments[k].revision == s[k].revision && segments[k].segment_index
        == s[k].segment_index by {}
    lemma_covers_through(before.segments@, s, segments, id);
    lemma_covers_back(before.segments@, s, segments, id);
    lemma_covered_top(before.segments@, segments, id);
}

/// Closing a turn adds events of that turn alone: that it took in messages, and
/// a claim.
proof fn lemma_closed_events(
    before: ConversationDb,
    mid: ConversationDb,
    events: Seq<EventRow>,
    turn: TurnRow,
    now: String,
)
    requires
        took_in(before, mid, turn, now),
        events.len() == mid.events@.len() + 1,
        events.drop_last() == mid.events@,
        events.last().turn_id == turn.turn_id,
        events.last().kind@ == restart::RESTART_ORPHANED_EVENT@,
    ensures
        forall|id: Seq<char>, kind: Seq<char>|
            id != turn.turn_id@ || kind == restart::RESTART_RESUME_EVENT@ ==> (
            #[trigger] restart::has_event(events, id, kind) == restart::has_event(
                before.events@,
                id,
                kind,
            )),
        restart::has_event(events, turn.turn_id@, restart::RESTART_ORPHANED_EVENT@),
{
    reveal_strlit("restart_orphaned");
    reveal_strlit("restart_resume");
    reveal_strlit("queued_prompts_consumed");
    assert(restart::RESTART_ORPHANED_EVENT@.len() == 16);
    assert(restart::RESTART_RESUME_EVENT@.len() == 14);
    assert("queued_prompts_consumed"@.len() == 23);
    assert forall|id: Seq<char>, kind: Seq<char>|
        id != turn.turn_id@ || kind == restart::RESTART_RESUME_EVENT@ implies (
    #[trigger] restart::has_event(events, id, kind) == restart::has_event(
        before.events@,
        id,
        kind,
    )) by {
        lemma_event_added(mid.events@, events, id, kind);
        if queue::any_waiting(before, json::opt_text(turn.queue_session_id)) {
            lemma_event_added(before.events@, mid.events@, id, kind);
        }
    }
    let n = events.len() - 1;
    assert(events[n] == events.last());
    assert(events[n].turn_id@ == turn.turn_id@);
}

/// Closing a turn takes in what waits in its queue, and nothing else.
proof fn lemma_closed_waits(
    before: ConversationDb,
    mid: ConversationDb,
    after: ConversationDb,
    turn: TurnRow,
    now: String,
)
    requires
        took_in(before, mid, turn, now),
        after.prompts == mid.prompts,
    ensures
        forall|queue: Seq<char>| #[trigger]
            waits(after, queue) == (waits(before, queue) && json::opt_text(turn.queue_session_id)
                != Some(queue)),
{
    let own = json::opt_text(turn.queue_session_id);
    assert forall|queue: Seq<char>| #[trigger]
        waits(after, queue) == (waits(before, queue) && own != Some(queue)) by {
        assert(waits(after, queue) == waits(mid, queue));
        if queue::any_waiting(before, own) {
            lemma_taking_waits(
                before,
                mid,
                own->Some_0,
                turn.turn_id,
                turn.revision,
                now,
                queue,
            );
        }
    }
}

// ---------------------------------------------------------------------------
// Numbers
// ---------------------------------------------------------------------------

/// Whether two turns are the same in what decides where they stand.
pub open spec fn alike(a: TurnRow, b: TurnRow) -> bool {
    &&& a.turn_id@ == b.turn_id@
    &&& a.session_id@ == b.session_id@
    &&& a.seq == b.seq
    &&& a.status == b.status
    &&& a.revision == b.revision
}

/// Whether turns are the same in what decides where they stand.
pub open spec fn all_alike(a: Seq<TurnRow>, b: Seq<TurnRow>) -> bool {
    &&& a.len() == b.len()
    &&& forall|i: int| 0 <= i < a.len() ==> alike(#[trigger] a[i], b[i])
}

/// Whether a turn takes in the messages of a queue when it is recovered: not
/// where its redo is undone.
pub open spec fn takes_from(db: ConversationDb, turn: TurnRow, queue: Seq<char>) -> bool {
    !redo::has_backup(db, turn.turn_id@, turn.revision) && json::opt_text(turn.queue_session_id)
        == Some(queue)
}

/// Whether one of some turns takes in the messages of a queue.
pub open spec fn any_takes_from(db: ConversationDb, turns: Seq<TurnRow>, queue: Seq<char>) -> bool {
    exists|j: int| 0 <= j < turns.len() && takes_from(db, #[trigger] turns[j], queue)
}

/// Whether messages wait for a turn when those of `earlier` were recovered.
pub open spec fn still_waits(db: ConversationDb, earlier: Seq<TurnRow>, turn: TurnRow) -> bool {
    match json::opt_text(turn.queue_session_id) {
        Some(queue) => waits(db, queue) && !any_takes_from(db, earlier, queue),
        None => false,
    }
}

/// A turn that is no longer running.
pub open spec fn ended(turn: TurnRow) -> TurnRow {
    TurnRow { status: TurnStatus::Interrupted, ..turn }
}

/// The turns after one of them was recovered, as far as it is decided where
/// they stand. There is none where the turn has to go to the end of its session
/// and there is no number for it, or it has to begin a segment, as `waiting`
/// says, and there is no index for it.
pub open spec fn settled(
    db: ConversationDb,
    turns: Seq<TurnRow>,
    turn: TurnRow,
    waiting: bool,
) -> Option<Seq<TurnRow>> {
    let at = super::turn_index(turns, turn.turn_id@);
    if redo::has_backup(db, turn.turn_id@, turn.revision) {
        Some(
            turns.update(
                at,
                TurnRow {
                    status: backup_of(db, turn).status,
                    revision: redo::revision_before(turn.revision),
                    ..turns[at]
                },
            ),
        )
    } else {
        let now = turns.update(at, ended(turns[at]));
        if (waiting && queue::journal_full(db, turn.turn_id@, turn.revision))
            || turns::cannot_bump(now, at) {
            None
        } else {
            Some(turns::bumped(now, at))
        }
    }
}

/// The turns after those of `stale` were recovered one after the other, as far
/// as it is decided where they stand. There is none where a number or an index
/// that is needed is missing.
pub open spec fn planned(db: ConversationDb, stale: Seq<TurnRow>) -> Option<Seq<TurnRow>>
    decreases stale.len(),
{
    if stale.len() == 0 {
        Some(db.turns@)
    } else {
        match planned(db, stale.drop_last()) {
            Some(turns) => settled(
                db,
                turns,
                stale.last(),
                still_waits(db, stale.drop_last(), stale.last()),
            ),
            None => None,
        }
    }
}

/// What can be recovered in full can be recovered in part.
pub proof fn lemma_planned_part(db: ConversationDb, stale: Seq<TurnRow>, k: int)
    requires
        planned(db, stale) is Some,
        0 <= k <= stale.len(),
    ensures
        planned(db, stale.take(k)) is Some,
    decreases stale.len() - k,
{
    if k < stale.len() {
        lemma_planned_part(db, stale, k + 1);
        assert(stale.take(k + 1).drop_last() =~= stale.take(k));
    } else {
        assert(stale.take(k) =~= stale);
    }
}

proof fn lemma_alike_last(a: Seq<TurnRow>, b: Seq<TurnRow>, session: Seq<char>, n: int)
    requires
        all_alike(a, b),
        0 <= n <= a.len(),
    ensures
        turns::last_turn(a, session, n) == turns::last_turn(b, session, n),
        -1 <= turns::last_turn(a, session, n) < n,
    decreases n,
{
    if n > 0 {
        assert(alike(a[n - 1], b[n - 1]));
        lemma_alike_last(a, b, session, n - 1);
    }
}

/// Where turns stand alike, one goes to the end of its session in the one case
/// as in the other.
pub proof fn lemma_alike_bumped(a: Seq<TurnRow>, b: Seq<TurnRow>, at: int)
    requires
        all_alike(a, b),
        0 <= at < a.len(),
    ensures
        turns::cannot_bump(a, at) == turns::cannot_bump(b, at),
        all_alike(turns::bumped(a, at), turns::bumped(b, at)),
{
    let session = a[at].session_id@;
    assert(alike(a[at], b[at]));
    assert(turns::later_ended(a, at) == turns::later_ended(b, at)) by {
        if turns::later_ended(a, at) {
            let j = choose|j: int|
                at < j < a.len() && (#[trigger] a[j]).session_id@ == a[at].session_id@
                    && a[j].status != TurnStatus::Running;
            assert(alike(a[j], b[j]));
            assert(b[j].session_id@ == b[at].session_id@);
        }
        if turns::later_ended(b, at) {
            let j = choose|j: int|
                at < j < b.len() && (#[trigger] b[j]).session_id@ == b[at].session_id@
                    && b[j].status != TurnStatus::Running;
            assert(alike(a[j], b[j]));
            assert(a[j].session_id@ == a[at].session_id@);
        }
    }
    lemma_alike_last(a, b, session, a.len() as int);
    let last = turns::last_turn(a, session, a.len() as int);
    if last >= 0 {
        assert(alike(a[last], b[last]));
    }
    assert(turns::latest_seq(a, session) == turns::latest_seq(b, session));
    if turns::overtaken(a, at) {
        let x = turns::bumped(a, at);
        let y = turns::bumped(b, at);
        assert forall|i: int| 0 <= i < x.len() implies alike(#[trigger] x[i], y[i]) by {
            if i < x.len() - 1 {
                let k = if i < at {
                    i
                } else {
                    i + 1
                };
                assert(x[i] == a[k] && y[i] == b[k]);
                assert(alike(a[k], b[k]));
            }
        }
    }
}

/// Turns that stand alike stand in the same places.
pub proof fn lemma_alike_found(a: Seq<TurnRow>, b: Seq<TurnRow>, turn: TurnRow)
    requires
        super::turns_ordered(a),
        all_alike(a, b),
        a.contains(turn),
    ensures
        super::turns_ordered(b),
        super::turn_index(b, turn.turn_id@) == super::turn_index(a, turn.turn_id@),
        0 <= super::turn_index(a, turn.turn_id@) < a.len(),
        a[super::turn_index(a, turn.turn_id@)] == turn,
{
    let id = turn.turn_id@;
    running::lemma_found(a, turn);
    let at = super::turn_index(a, id);
    assert(alike(a[at], b[at]));
    assert forall|i: int, j: int| 0 <= i < j < b.len() implies #[trigger] b[i].turn_id@
        != #[trigger] b[j].turn_id@ by {
        assert(alike(a[i], b[i]) && alike(a[j], b[j]));
        assert(a[i].turn_id@ != a[j].turn_id@);
    }
    assert forall|i: int, j: int|
        0 <= i < j < b.len() && #[trigger] b[i].session_id@
            == #[trigger] b[j].session_id@ implies b[i].seq < b[j].seq by {
        assert(alike(a[i], b[i]) && alike(a[j], b[j]));
        assert(a[i].session_id@ == a[j].session_id@);
    }
    running::lemma_found(b, b[at]);
    let there = super::turn_index(b, id);
    if there < at {
        assert(b[there].turn_id@ != b[at].turn_id@);
    } else if at < there {
        assert(b[at].turn_id@ != b[there].turn_id@);
    }
}

/// Whether `here` is `before` after the first `k` of the turns `stale` were
/// recovered, as far as it matters for the others.
pub open spec fn follows(before: ConversationDb, here: ConversationDb, stale: Seq<TurnRow>, k: int) -> bool {
    &&& planned(before, stale.take(k)) matches Some(turns) && all_alike(here.turns@, turns)
    &&& forall|j: int|
        k <= j < stale.len() ==> here.turns@.contains(#[trigger] stale[j]) && same_backup(
            before.backups@,
            here.backups@,
            stale[j].turn_id@,
            stale[j].revision,
        ) && has_top(here.segments@, stale[j].turn_id@, stale[j].revision) == has_top(
            before.segments@,
            stale[j].turn_id@,
            stale[j].revision,
        )
    &&& forall|queue: Seq<char>| #[trigger]
        waits(here, queue) == (waits(before, queue) && !any_takes_from(
            before,
            stale.take(k),
            queue,
        ))
}

/// Whether the numbers and the indices that a turn needs are there.
pub open spec fn can_recover(db: ConversationDb, turn: TurnRow) -> bool {
    let at = db.turn_at(turn.turn_id@);
    redo::has_backup(db, turn.turn_id@, turn.revision) || {
        &&& !(queue::any_waiting(db, json::opt_text(turn.queue_session_id))
            && queue::journal_full(db, turn.turn_id@, turn.revision))
        &&& !turns::cannot_bump(db.turns@.update(at, ended(turn)), at)
    }
}

/// Before anything was recovered.
pub proof fn lemma_follows_first(before: ConversationDb, stale: Seq<TurnRow>)
    requires
        forall|j: int| 0 <= j < stale.len() ==> before.turns@.contains(#[trigger] stale[j]),
    ensures
        follows(before, before, stale, 0),
{
    assert(stale.take(0) =~= Seq::empty());
    assert(planned(before, stale.take(0)) == Some(before.turns@));
}

/// A turn can be recovered where that was planned.
pub proof fn lemma_can_recover(
    before: ConversationDb,
    here: ConversationDb,
    stale: Seq<TurnRow>,
    k: int,
)
    requires
        before.wf(),
        here.wf(),
        0 <= k < stale.len(),
        follows(before, here, stale, k),
        planned(before, stale.take(k + 1)) is Some,
    ensures
        can_recover(here, stale[k]),
{
    let turn = stale[k];
    let id = turn.turn_id@;
    let turns = planned(before, stale.take(k))->0;
    assert(stale.take(k + 1).drop_last() =~= stale.take(k));
    assert(stale.take(k + 1).last() == turn);
    lemma_alike_found(here.turns@, turns, turn);
    let at = here.turn_at(id);
    assert(same_backup(before.backups@, here.backups@, id, turn.revision));
    if !redo::has_backup(here, id, turn.revision) {
        lemma_top(here.segments@, id, turn.revision);
        lemma_top(before.segments@, id, turn.revision);
        match json::opt_text(turn.queue_session_id) {
            Some(queue) => {
                assert(queue::any_waiting(here, Some(queue)) == waits(here, queue));
            },
            None => {},
        }
        assert(alike(here.turns@[at], turns[at]));
        let a = here.turns@.update(at, ended(turn));
        let b = turns.update(at, ended(turns[at]));
        lemma_alike_updated(here.turns@, turns, at, ended(turn), ended(turns[at]));
        lemma_alike_bumped(a, b, at);
    }
}

proof fn lemma_alike_updated(
    a: Seq<TurnRow>,
    b: Seq<TurnRow>,
    at: int,
    x: TurnRow,
    y: TurnRow,
)
    requires
        all_alike(a, b),
        0 <= at < a.len(),
        alike(x, y),
    ensures
        all_alike(a.update(at, x), b.update(at, y)),
{
    assert forall|i: int| 0 <= i < a.len() implies alike(
        #[trigger] a.update(at, x)[i],
        b.update(at, y)[i],
    ) by {
        assert(alike(a[i], b[i]));
    }
}

/// One turn more was recovered.
pub proof fn lemma_follows_next<F: Fn(&ConversationDb, &String) -> Option<Vec<ReplayEntry>>>(
    before: ConversationDb,
    was: ConversationDb,
    here: ConversationDb,
    stale: Seq<TurnRow>,
    k: int,
    restored: bool,
    gather: F,
    now: String,
)
    requires
        was.wf(),
        0 <= k < stale.len(),
        follows(before, was, stale, k),
        planned(before, stale.take(k + 1)) is Some,
        running::recovered(was, here, stale[k], restored, gather, now),
        forall|i: int, j: int|
            0 <= i < j < stale.len() ==> (#[trigger] stale[i]).turn_id@ != (
            #[trigger] stale[j]).turn_id@,
    ensures
        follows(before, here, stale, k + 1),
{
    let turn = stale[k];
    let id = turn.turn_id@;
    let turns = planned(before, stale.take(k))->0;
    let next = stale.take(k + 1);
    assert(next.drop_last() =~= stale.take(k));
    assert(next.last() == turn);
    assert(was.turns@.contains(turn));
    lemma_recovered(was, here, turn, restored, gather, now);
    lemma_alike_found(was.turns@, turns, turn);
    let at = was.turn_at(id);
    assert(alike(was.turns@[at], turns[at]));
    assert(same_backup(before.backups@, was.backups@, id, turn.revision));
    // Where the turns stand.
    if restored {
        lemma_alike_updated(
            was.turns@,
            turns,
            at,
            redo::turn_restored(turn, backup_of(was, turn)),
            TurnRow {
                status: backup_of(before, turn).status,
                revision: redo::revision_before(turn.revision),
                ..turns[at]
            },
        );
    } else {
        let row = choose|row: TurnRow| #[trigger]
            is_closed(turn, row) && row.seq == turn.seq && here.turns@ == turns::bumped(
                was.turns@.update(at, row),
                at,
            );
        lemma_alike_updated(was.turns@, turns, at, row, ended(turns[at]));
        lemma_alike_bumped(was.turns@.update(at, row), turns.update(at, ended(turns[at])), at);
    }
    // What is left of the others.
    assert forall|j: int| k + 1 <= j < stale.len() implies here.turns@.contains(#[trigger] stale[j])
        && same_backup(before.backups@, here.backups@, stale[j].turn_id@, stale[j].revision)
        && has_top(here.segments@, stale[j].turn_id@, stale[j].revision) == has_top(
        before.segments@,
        stale[j].turn_id@,
        stale[j].revision,
    ) by {
        assert(stale[k].turn_id@ != stale[j].turn_id@);
        assert(was.turns@.contains(stale[j]));
        assert(same_backup(was.backups@, here.backups@, stale[j].turn_id@, stale[j].revision));
    }
    // What waits.
    assert forall|queue: Seq<char>| #[trigger]
        waits(here, queue) == (waits(before, queue) && !any_takes_from(before, next, queue)) by {
        assert(any_takes_from(before, next, queue) == (any_takes_from(
            before,
            stale.take(k),
            queue,
        ) || takes_from(before, turn, queue))) by {
            if any_takes_from(before, next, queue) {
                let j = choose|j: int|
                    0 <= j < next.len() && takes_from(before, #[trigger] next[j], queue);
                if j < k {
                    assert(stale.take(k)[j] == next[j]);
                }
            }
            if any_takes_from(before, stale.take(k), queue) {
                let j = choose|j: int|
                    0 <= j < k && takes_from(before, #[trigger] stale.take(k)[j], queue);
                assert(next[j] == stale.take(k)[j]);
            }
            assert(next[k] == turn);
        }
        assert(waits(was, queue) == (waits(before, queue) && !any_takes_from(
            before,
            stale.take(k),
            queue,
        )));
    }
}

// ---------------------------------------------------------------------------
// Laws
// ---------------------------------------------------------------------------

/// Whether a turn is among others.
pub open spec fn is_named(turns: Seq<TurnRow>, turn_id: Seq<char>) -> bool {
    exists|k: int| 0 <= k < turns.len() && (#[trigger] turns[k]).turn_id@ == turn_id
}

/// Whether a turn was closed and claimed: its tokens are what they were, and
/// it is offered to be gone on with, unless a claim of it was settled before.
pub open spec fn is_claimed(before: ConversationDb, after: ConversationDb, turn: TurnRow) -> bool {
    &&& exists|row: TurnRow| #[trigger] after.turns@.contains(row) && is_closed(turn, row)
    &&& restart::has_event(after.events@, turn.turn_id@, restart::RESTART_ORPHANED_EVENT@)
    &&& restart::has_event(after.events@, turn.turn_id@, restart::RESTART_RESUME_EVENT@)
        == restart::has_event(before.events@, turn.turn_id@, restart::RESTART_RESUME_EVENT@)
}

/// Whether a turn was recovered: the redo that left a backup was undone, and
/// any other turn was closed and claimed.
pub open spec fn is_recovered(
    before: ConversationDb,
    after: ConversationDb,
    turn: TurnRow,
    recovery: StaleTurnRecovery,
) -> bool {
    &&& recovery.turn_id == turn.turn_id
    &&& recovery.session_id == turn.session_id
    &&& recovery.restored_redo == redo::has_backup(before, turn.turn_id@, turn.revision)
    &&& if recovery.restored_redo {
        after.turns@.contains(redo::turn_restored(turn, backup_of(before, turn)))
    } else {
        is_claimed(before, after, turn)
    }
}

/// What recovering turns one after the other comes to.
proof fn lemma_all_recovered<F: Fn(&ConversationDb, &String) -> Option<Vec<ReplayEntry>>>(
    before: ConversationDb,
    after: ConversationDb,
    stale: Seq<TurnRow>,
    recoveries: Seq<StaleTurnRecovery>,
    gather: F,
    now: String,
)
    requires
        before.wf(),
        running::recovered_all(before, after, stale, recoveries, gather, now),
        forall|k: int| 0 <= k < stale.len() ==> before.turns@.contains(#[trigger] stale[k]),
        forall|j: int, k: int|
            0 <= j < k < stale.len() ==> (#[trigger] stale[j]).turn_id@ != (
            #[trigger] stale[k]).turn_id@,
    ensures
        forall|k: int|
            0 <= k < stale.len() ==> is_recovered(
                before,
                after,
                #[trigger] stale[k],
                recoveries[k],
            ),
        forall|row: TurnRow| #[trigger]
            before.turns@.contains(row) && !is_named(stale, row.turn_id@)
                ==> after.turns@.contains(row),
        forall|id: Seq<char>, revision: i64|
            !is_named(stale, id) ==> #[trigger] same_backup(
                before.backups@,
                after.backups@,
                id,
                revision,
            ),
        forall|id: Seq<char>, kind: Seq<char>|
            !is_named(stale, id) ==> (#[trigger] restart::has_event(after.events@, id, kind)
                == restart::has_event(before.events@, id, kind)),
    decreases stale.len(),
{
    if stale.len() > 0 {
        let n = stale.len() - 1;
        let turn = stale[n];
        let id = turn.turn_id@;
        let earlier = stale.drop_last();
        let told = recoveries.drop_last();
        let restored = recoveries.last().restored_redo;
        let mid = choose|mid: ConversationDb|
            {
                &&& mid.wf()
                &&& #[trigger] running::recovered(mid, after, stale.last(), restored, gather, now)
                &&& running::recovered_all(before, mid, earlier, told, gather, now)
            };
        assert forall|k: int| 0 <= k < earlier.len() implies before.turns@.contains(
            #[trigger] earlier[k],
        ) by {
            assert(earlier[k] == stale[k]);
        }
        assert forall|j: int, k: int| 0 <= j < k < earlier.len() implies (
        #[trigger] earlier[j]).turn_id@ != (#[trigger] earlier[k]).turn_id@ by {
            assert(stale[j].turn_id@ != stale[k].turn_id@);
        }
        lemma_all_recovered(before, mid, earlier, told, gather, now);
        assert(!is_named(earlier, id)) by {
            if is_named(earlier, id) {
                let k = choose|k: int|
                    0 <= k < earlier.len() && (#[trigger] earlier[k]).turn_id@ == id;
                assert(stale[k].turn_id@ != stale[n].turn_id@);
            }
        }
        assert(mid.turns@.contains(turn));
        lemma_recovered(mid, after, turn, restored, gather, now);
        running::lemma_found(mid.turns@, turn);
        let at = mid.turn_at(id);
        assert(same_backup(before.backups@, mid.backups@, id, turn.revision));
        // Those that were recovered before stay as they are.
        assert forall|k: int| 0 <= k < n implies is_recovered(
            before,
            after,
            #[trigger] stale[k],
            recoveries[k],
        ) by {
            assert(earlier[k] == stale[k] && told[k] == recoveries[k]);
            assert(is_recovered(before, mid, earlier[k], told[k]));
            assert(stale[k].turn_id@ != stale[n].turn_id@);
            if recoveries[k].restored_redo {
                let row = redo::turn_restored(stale[k], backup_of(before, stale[k]));
                assert(mid.turns@.contains(row) && row.turn_id@ != id);
            } else {
                let row = choose|row: TurnRow| #[trigger]
                    mid.turns@.contains(row) && is_closed(stale[k], row);
                assert(mid.turns@.contains(row) && row.turn_id@ != id);
                assert(after.turns@.contains(row));
            }
        }
        // This one is recovered.
        assert(is_recovered(before, after, turn, recoveries[n])) by {
            if restored {
                assert(after.turns@[at] == redo::turn_restored(turn, backup_of(before, turn)));
            } else {
                let row = choose|row: TurnRow| #[trigger]
                    is_closed(turn, row) && row.seq == turn.seq && after.turns@ == turns::bumped(
                        mid.turns@.update(at, row),
                        at,
                    );
                let ended = mid.turns@.update(at, row);
                let k = if turns::overtaken(ended, at) {
                    after.turns@.len() - 1
                } else {
                    at
                };
                let last = after.turns@[k];
                assert(is_closed(turn, last));
                assert(after.turns@.contains(last));
            }
        }
        // The others are left.
        assert forall|other: Seq<char>| !is_named(stale, other) implies !(#[trigger] is_named(
            earlier,
            other,
        )) && other != id by {
            assert(stale[n].turn_id@ == id);
            if is_named(earlier, other) {
                let k = choose|k: int|
                    0 <= k < earlier.len() && (#[trigger] earlier[k]).turn_id@ == other;
                assert(stale[k].turn_id@ == other);
            }
        }
        assert forall|row: TurnRow| #[trigger]
            before.turns@.contains(row) && !is_named(
                stale,
                row.turn_id@,
            ) implies after.turns@.contains(row) by {
            assert(!is_named(earlier, row.turn_id@));
            assert(mid.turns@.contains(row));
        }
        assert forall|other: Seq<char>, revision: i64|
            !is_named(stale, other) implies #[trigger] same_backup(
            before.backups@,
            after.backups@,
            other,
            revision,
        ) by {
            assert(!is_named(earlier, other));
            assert(same_backup(before.backups@, mid.backups@, other, revision));
            assert(same_backup(mid.backups@, after.backups@, other, revision));
        }
        assert forall|other: Seq<char>, kind: Seq<char>|
            !is_named(stale, other) implies (#[trigger] restart::has_event(
            after.events@,
            other,
            kind,
        ) == restart::has_event(before.events@, other, kind)) by {
            assert(!is_named(earlier, other));
            assert(restart::has_event(mid.events@, other, kind) == restart::has_event(
                before.events@,
                other,
                kind,
            ));
        }
    } else {
        assert forall|id: Seq<char>, revision: i64| #[trigger] same_backup(
            before.backups@,
            after.backups@,
            id,
            revision,
        ) by {}
    }
}

/// A recovery tells of each turn whose process is gone, once and in order, and
/// of no other. The redo of one that left a backup is undone. Any other is
/// closed with the tokens it had and, unless a claim of it was settled before,
/// is offered to be gone on with. Every other turn stays as it was.
pub proof fn a_recovery_is_whole<F: Fn(&ConversationDb, &String) -> Option<Vec<ReplayEntry>>>(
    before: ConversationDb,
    after: ConversationDb,
    alive: Seq<u32>,
    recoveries: Seq<StaleTurnRecovery>,
    gather: F,
    now: String,
)
    requires
        before.wf(),
        running::recovered_all(
            before,
            after,
            running::stale_turns(before.turns@, alive),
            recoveries,
            gather,
            now,
        ),
    ensures
        ({
            let stale = running::stale_turns(before.turns@, alive);
            &&& recoveries.len() == stale.len()
            &&& forall|j: int, k: int|
                0 <= j < k < recoveries.len() ==> (#[trigger] recoveries[j]).turn_id@ != (
                #[trigger] recoveries[k]).turn_id@
            &&& forall|k: int|
                0 <= k < stale.len() ==> is_recovered(
                    before,
                    after,
                    #[trigger] stale[k],
                    recoveries[k],
                )
            &&& forall|k: int|
                0 <= k < stale.len() && !redo::has_backup(
                    before,
                    (#[trigger] stale[k]).turn_id@,
                    stale[k].revision,
                ) && !restart::has_event(
                    before.events@,
                    stale[k].turn_id@,
                    restart::RESTART_RESUME_EVENT@,
                ) ==> running::is_offered(after, stale[k].turn_id@)
            &&& forall|row: TurnRow| #[trigger]
                before.turns@.contains(row) && !(row.status == TurnStatus::Running
                    && !running::is_owned(row, alive)) ==> after.turns@.contains(row)
        }),
{
    let stale = running::stale_turns(before.turns@, alive);
    running::lemma_stale(before.turns@, alive);
    lemma_all_recovered(before, after, stale, recoveries, gather, now);
    assert forall|j: int, k: int| 0 <= j < k < recoveries.len() implies (
    #[trigger] recoveries[j]).turn_id@ != (#[trigger] recoveries[k]).turn_id@ by {
        assert(is_recovered(before, after, stale[j], recoveries[j]));
        assert(is_recovered(before, after, stale[k], recoveries[k]));
    }
    assert forall|k: int|
        0 <= k < stale.len() && !redo::has_backup(
            before,
            (#[trigger] stale[k]).turn_id@,
            stale[k].revision,
        ) && !restart::has_event(
            before.events@,
            stale[k].turn_id@,
            restart::RESTART_RESUME_EVENT@,
        ) implies running::is_offered(after, stale[k].turn_id@) by {
        assert(is_recovered(before, after, stale[k], recoveries[k]));
        let row = choose|row: TurnRow| #[trigger]
            after.turns@.contains(row) && is_closed(stale[k], row);
        assert(restart::is_pending(after.events@, row));
    }
    assert forall|row: TurnRow| #[trigger]
        before.turns@.contains(row) && !(row.status == TurnStatus::Running && !running::is_owned(
            row,
            alive,
        )) implies after.turns@.contains(row) by {
        if is_named(stale, row.turn_id@) {
            let k = choose|k: int|
                0 <= k < stale.len() && (#[trigger] stale[k]).turn_id@ == row.turn_id@;
            running::lemma_found(before.turns@, row);
            running::lemma_found(before.turns@, stale[k]);
            assert(stale[k] == row);
        }
    }
}

} // verus!
