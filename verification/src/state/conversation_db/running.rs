//! Turns that are running, and those that were when their process died.

use vstd::prelude::*;

use crate::json;
use crate::text::same_text;

use super::projection::{self, interrupted_projection};
use super::queue;
use super::recovery;
use super::redo;
use super::restart;
use super::rows::{
    copy_opt, DbError, PromptRow, ReplayEntry, Stamp, TurnRow, TurnStatus, TurnTokens,
};
use crate::table;
use super::turns::{
    self, bump_completion_seq, cut_off_segments, latest_turn_seq_in, store_snapshot, write_cut_off,
};
use super::{find_turn, ConversationDb};

verus! {

/// A turn that was closed because its process is gone.
#[derive(Debug)]
pub struct StaleTurnRecovery {
    pub turn_id: String,
    pub session_id: String,
    /// Whether it was a redo that was undone.
    pub restored_redo: bool,
}

/// Whether the process that owns a turn is among those that live.
pub open spec fn is_owned(turn: TurnRow, alive: Seq<u32>) -> bool {
    match turn.owner_pid {
        Some(pid) => alive.contains(pid as u32),
        None => false,
    }
}

/// The running turns whose process is gone.
pub open spec fn stale_turns(turns: Seq<TurnRow>, alive: Seq<u32>) -> Seq<TurnRow> {
    turns.filter(|turn: TurnRow| turn.status == TurnStatus::Running && !is_owned(turn, alive))
}

/// What closing a turn without a backup comes to: it takes in the messages
/// that wait for it, what it had said is written as its answer, it goes to the
/// end of its session where it was overtaken, what it showed is kept, its
/// journal is closed, and a claim says when it last did something. What it
/// showed is gathered by `gather`.
pub open spec fn stale_closed<F: Fn(&ConversationDb, &String) -> Option<Vec<ReplayEntry>>>(
    before: ConversationDb,
    after: ConversationDb,
    turn: TurnRow,
    gather: F,
    now: String,
) -> bool {
    exists|
        mid: ConversationDb,
        row: TurnRow,
        closed: ConversationDb,
        snapshot: Option<Vec<ReplayEntry>>,
        cut: ConversationDb,
    |
        #![trigger stale_steps(before, mid, row, closed, snapshot, cut, after, turn, gather, now)]
        stale_steps(before, mid, row, closed, snapshot, cut, after, turn, gather, now)
}

/// The steps of closing a turn: `mid` is what there is when the messages are
/// taken in, `row` the turn as it is closed, `closed` what there is when what
/// it showed is gathered, which is `snapshot`, and `cut` what there is before
/// the claim is made.
pub open spec fn stale_steps<F: Fn(&ConversationDb, &String) -> Option<Vec<ReplayEntry>>>(
    before: ConversationDb,
    mid: ConversationDb,
    row: TurnRow,
    closed: ConversationDb,
    snapshot: Option<Vec<ReplayEntry>>,
    cut: ConversationDb,
    after: ConversationDb,
    turn: TurnRow,
    gather: F,
    now: String,
) -> bool {
    let id = turn.turn_id@;
    let revision = turn.revision;
    let at = mid.turn_at(id);
    &&& if queue::any_waiting(before, json::opt_text(turn.queue_session_id)) {
        queue::waiting_taken(
            before,
            mid,
            turn.queue_session_id->Some_0@,
            turn.turn_id,
            revision,
            now,
        )
    } else {
        mid == before
    }
    &&& turns::cut_off(
        mid.turns@[at],
        row,
        projection::interrupted_answer(mid.segments@, mid.events@, id, revision),
        TurnTokens { total: 0, prompt: 0, cache_read: 0 },
        now,
    )
    &&& closed.turns@ == turns::bumped(mid.turns@.update(at, row), at)
    &&& closed == (ConversationDb { turns: closed.turns, ..mid })
    &&& gather.ensures((&closed, &turn.turn_id), snapshot)
    &&& cut.replays@ == turns::with_snapshot(closed.replays@, turn.turn_id, snapshot)
    &&& cut.segments@ == turns::segments_cut_off(closed.segments@, id, revision, now)
    &&& cut == (ConversationDb { segments: cut.segments, replays: cut.replays, ..closed })
    &&& restart::lifecycle_added(
        cut,
        after,
        turn.turn_id,
        revision,
        restart::RESTART_ORPHANED_EVENT@,
        restart::claim_payload(restart::last_activity(before, id, revision)),
        now,
    )
}

/// What recovering one turn comes to.
pub open spec fn recovered<F: Fn(&ConversationDb, &String) -> Option<Vec<ReplayEntry>>>(
    before: ConversationDb,
    after: ConversationDb,
    turn: TurnRow,
    restored: bool,
    gather: F,
    now: String,
) -> bool {
    &&& restored == redo::has_backup(before, turn.turn_id@, turn.revision)
    &&& if restored {
        redo::redo_undone(before, turn.turn_id@, turn.revision, after)
    } else {
        stale_closed(before, after, turn, gather, now)
    }
}

/// A turn that is there is found.
pub proof fn lemma_found(turns: Seq<TurnRow>, turn: TurnRow)
    requires
        super::turns_ordered(turns),
        turns.contains(turn),
    ensures
        ({
            let at = super::turn_index(turns, turn.turn_id@);
            0 <= at < turns.len() && turns[at] == turn
        }),
{
    let i = choose|i: int| 0 <= i < turns.len() && turns[i] == turn;
    assert(super::is_turn_at(turns, turn.turn_id@, i));
    let at = super::turn_index(turns, turn.turn_id@);
    assert(super::is_turn_at(turns, turn.turn_id@, at));
    if at < i {
        assert(turns[at].turn_id@ != turns[i].turn_id@);
    } else if i < at {
        assert(turns[i].turn_id@ != turns[at].turn_id@);
    }
}

impl ConversationDb {
    /// Closes a turn whose process is gone, or undoes its redo. Says whether it
    /// was a redo.
    fn recover_stale_turn<F: Fn(&ConversationDb, &String) -> Option<Vec<ReplayEntry>>>(
        &mut self,
        turn_id: &String,
        revision: i64,
        queue: &Option<String>,
        gather: &F,
        now: &Stamp,
        Ghost(turn): Ghost<TurnRow>,
    ) -> (restored: bool)
        requires
            old(self).wf(),
            old(self).turns@.contains(turn),
            turn.turn_id == *turn_id,
            turn.revision == revision,
            turn.queue_session_id == *queue,
            turn.status == TurnStatus::Running,
            recovery::can_recover(*old(self), turn),
            forall|db: &ConversationDb, id: &String| gather.requires((db, id)),
        ensures
            final(self).wf(),
            recovered(*old(self), *final(self), turn, restored, *gather, now.text),
    {
        let ghost before = *self;
        proof {
            lemma_found(before.turns@, turn);
        }
        match self.restore_redo_backup(turn_id.as_str(), revision) {
            Ok(true) => {
                return true;
            },
            Ok(false) => {},
            Err(_) => {
                assert(false);
            },
        }
        let activity = self.last_turn_activity(turn_id.as_str(), revision);
        let waiting = match queue {
            Some(queue) => Some(queue),
            None => None,
        };
        let taken = self.consume_stale_queued_prompts(turn_id, revision, waiting, &now.text);
        assert(taken is Ok);
        let ghost mid = *self;
        let answer = interrupted_projection(
            &self.segments,
            &self.events,
            turn_id.as_str(),
            revision,
        );
        if let Some(here) = find_turn(&self.turns, turn_id.as_str()) {
            write_cut_off(&mut self.turns, here, answer, TurnTokens::none(), &now.text);
            let ghost row = self.turns@[here as int];
            proof {
                let one = mid.turns@.update(here as int, row);
                let other = mid.turns@.update(here as int, recovery::ended(turn));
                assert(recovery::all_alike(one, other));
                recovery::lemma_alike_bumped(one, other, here as int);
            }
            bump_completion_seq(&mut self.turns, here);
            let ghost closed = *self;
            let snapshot = gather(&*self, turn_id);
            store_snapshot(&mut self.replays, turn_id, snapshot);
            cut_off_segments(&mut self.segments, turn_id.as_str(), revision, &now.text);
            let ghost cut = *self;
            self.mark_restart_orphan(turn_id, revision, &activity, &now.text);
            proof {
                assert(stale_steps(
                    before,
                    mid,
                    row,
                    closed,
                    snapshot,
                    cut,
                    *self,
                    turn,
                    *gather,
                    now.text,
                ));
            }
        }
        false
    }
}

/// What recovering turns one after the other comes to.
pub open spec fn recovered_all<F: Fn(&ConversationDb, &String) -> Option<Vec<ReplayEntry>>>(
    before: ConversationDb,
    after: ConversationDb,
    stale: Seq<TurnRow>,
    recoveries: Seq<StaleTurnRecovery>,
    gather: F,
    now: String,
) -> bool
    decreases stale.len(),
{
    &&& recoveries.len() == stale.len()
    &&& if stale.len() == 0 {
        after == before
    } else {
        let recovery = recoveries.last();
        &&& recovery.turn_id == stale.last().turn_id
        &&& recovery.session_id == stale.last().session_id
        &&& exists|mid: ConversationDb|
            {
                &&& mid.wf()
                &&& #[trigger] recovered(
                    mid,
                    after,
                    stale.last(),
                    recovery.restored_redo,
                    gather,
                    now,
                )
                &&& recovered_all(
                    before,
                    mid,
                    stale.drop_last(),
                    recoveries.drop_last(),
                    gather,
                    now,
                )
            }
    }
}

/// Recovering one turn more.
proof fn lemma_one_more<F: Fn(&ConversationDb, &String) -> Option<Vec<ReplayEntry>>>(
    before: ConversationDb,
    mid: ConversationDb,
    after: ConversationDb,
    stale: Seq<TurnRow>,
    turn: TurnRow,
    recoveries: Seq<StaleTurnRecovery>,
    recovery: StaleTurnRecovery,
    gather: F,
    now: String,
)
    requires
        mid.wf(),
        recovered_all(before, mid, stale, recoveries, gather, now),
        recovered(mid, after, turn, recovery.restored_redo, gather, now),
        recovery.turn_id == turn.turn_id,
        recovery.session_id == turn.session_id,
    ensures
        recovered_all(before, after, stale.push(turn), recoveries.push(recovery), gather, now),
{
    let more = stale.push(turn);
    let found = recoveries.push(recovery);
    assert(more.drop_last() =~= stale);
    assert(found.drop_last() =~= recoveries);
    assert(more.last() == turn && found.last() == recovery);
    assert(recovered(mid, after, more.last(), found.last().restored_redo, gather, now)
        && recovered_all(before, mid, more.drop_last(), found.drop_last(), gather, now));
}

/// Whether a process is among those that live.
fn lives(alive: &Vec<u32>, pid: u32) -> (r: bool)
    ensures
        r == alive@.contains(pid),
{
    let mut i: usize = 0;
    while i < alive.len()
        invariant
            i <= alive@.len(),
            forall|k: int| 0 <= k < i ==> alive@[k] != pid,
        decreases alive@.len() - i,
    {
        if alive[i] == pid {
            return true;
        }
        i += 1;
    }
    false
}

/// What is needed of a turn to recover it.
struct StaleTurn {
    turn_id: String,
    session_id: String,
    revision: i64,
    queue_session_id: Option<String>,
}

spec fn is_stale_entry(entry: StaleTurn, turn: TurnRow) -> bool {
    &&& entry.turn_id == turn.turn_id
    &&& entry.session_id == turn.session_id
    &&& entry.revision == turn.revision
    &&& entry.queue_session_id == turn.queue_session_id
}

spec fn are_stale_entries(entries: Seq<StaleTurn>, turns: Seq<TurnRow>) -> bool {
    &&& entries.len() == turns.len()
    &&& forall|k: int| 0 <= k < turns.len() ==> is_stale_entry(#[trigger] entries[k], turns[k])
}

/// The running turns whose process is gone.
fn find_stale(turns: &Vec<TurnRow>, alive: &Vec<u32>) -> (entries: Vec<StaleTurn>)
    ensures
        are_stale_entries(entries@, stale_turns(turns@, alive@)),
{
    let ghost chosen = |turn: TurnRow|
        turn.status == TurnStatus::Running && !is_owned(turn, alive@);
    let mut entries: Vec<StaleTurn> = Vec::new();
    let mut i: usize = 0;
    proof {
        reveal(Seq::filter);
        assert(turns@.take(0).filter(chosen) =~= Seq::empty());
    }
    while i < turns.len()
        invariant
            i <= turns@.len(),
            chosen == (|turn: TurnRow|
                turn.status == TurnStatus::Running && !is_owned(turn, alive@)),
            are_stale_entries(entries@, turns@.take(i as int).filter(chosen)),
        decreases turns@.len() - i,
    {
        proof {
            table::lemma_filter_step(turns@, chosen, i as int);
        }
        let turn = &turns[i];
        let owned = match turn.owner_pid {
            Some(pid) => lives(alive, pid as u32),
            None => false,
        };
        if turn.status == TurnStatus::Running && !owned {
            let ghost was = entries@;
            let ghost picked = turns@.take(i as int).filter(chosen);
            entries.push(
                StaleTurn {
                    turn_id: turn.turn_id.clone(),
                    session_id: turn.session_id.clone(),
                    revision: turn.revision,
                    queue_session_id: copy_opt(&turn.queue_session_id),
                },
            );
            proof {
                assert forall|k: int| 0 <= k < picked.len() + 1 implies is_stale_entry(
                    #[trigger] entries@[k],
                    picked.push(*turn)[k],
                ) by {
                    if k < picked.len() {
                        assert(is_stale_entry(was[k], picked[k]));
                    }
                }
            }
        }
        i += 1;
    }
    assert(turns@.take(turns@.len() as int) =~= turns@);
    entries
}

/// What is stale is running and stands in the table, each turn once.
pub proof fn lemma_stale(turns: Seq<TurnRow>, alive: Seq<u32>)
    requires
        super::turns_ordered(turns),
    ensures
        ({
            let stale = stale_turns(turns, alive);
            &&& forall|k: int|
                0 <= k < stale.len() ==> turns.contains(#[trigger] stale[k]) && stale[k].status
                    == TurnStatus::Running && !is_owned(stale[k], alive)
            &&& forall|j: int, k: int|
                0 <= j < k < stale.len() ==> (#[trigger] stale[j]).turn_id@ != (
                #[trigger] stale[k]).turn_id@
        }),
{
    let chosen = |turn: TurnRow| turn.status == TurnStatus::Running && !is_owned(turn, alive);
    let dropped = |turn: TurnRow| !chosen(turn);
    let stale = stale_turns(turns, alive);
    assert(stale =~= table::without(turns, dropped)) by {
        assert forall|turn: TurnRow| #[trigger] chosen(turn) == !dropped(turn) by {}
        lemma_same_filter(turns, chosen, |turn: TurnRow| !dropped(turn));
    }
    let place = table::lemma_without_embeds(turns, dropped);
    assert forall|k: int| 0 <= k < stale.len() implies turns.contains(#[trigger] stale[k])
        && stale[k].status == TurnStatus::Running && !is_owned(stale[k], alive) by {
        assert(0 <= place(k) < turns.len());
        table::lemma_filtered(turns, chosen, k);
    }
    assert forall|j: int, k: int| 0 <= j < k < stale.len() implies (
    #[trigger] stale[j]).turn_id@ != (#[trigger] stale[k]).turn_id@ by {
        assert(place(j) < place(k));
        assert(turns[place(j)].turn_id@ != turns[place(k)].turn_id@);
    }
}

/// Filters that agree filter the same.
pub proof fn lemma_same_filter(
    turns: Seq<TurnRow>,
    one: spec_fn(TurnRow) -> bool,
    other: spec_fn(TurnRow) -> bool,
)
    requires
        forall|turn: TurnRow| #[trigger] one(turn) == other(turn),
    ensures
        turns.filter(one) == turns.filter(other),
    decreases turns.len(),
{
    reveal(Seq::filter);
    if turns.len() > 0 {
        lemma_same_filter(turns.drop_last(), one, other);
    }
}

/// The turns once more.
fn copy_turns(turns: &Vec<TurnRow>) -> (copy: Vec<TurnRow>)
    ensures
        copy@ == turns@,
{
    let mut copy: Vec<TurnRow> = Vec::new();
    let mut i: usize = 0;
    while i < turns.len()
        invariant
            i <= turns@.len(),
            copy@ =~= turns@.take(i as int),
        decreases turns@.len() - i,
    {
        copy.push(turns[i].copy());
        i += 1;
    }
    copy
}

impl ConversationDb {
    /// Whether messages wait for turn `k` of `entries` when those before it
    /// were recovered.
    fn is_still_waiting(&self, entries: &Vec<StaleTurn>, k: usize, Ghost(stale): Ghost<
        Seq<TurnRow>,
    >) -> (r: bool)
        requires
            k < entries@.len(),
            are_stale_entries(entries@, stale),
        ensures
            r == recovery::still_waits(*self, stale.take(k as int), stale[k as int]),
    {
        assert(is_stale_entry(entries@[k as int], stale[k as int]));
        let queue = match &entries[k].queue_session_id {
            Some(queue) => queue,
            None => return false,
        };
        if !queue::waits_any(&self.prompts, queue.as_str()) {
            return false;
        }
        let mut j: usize = 0;
        while j < k
            invariant
                j <= k < entries@.len(),
                are_stale_entries(entries@, stale),
                json::opt_text(stale[k as int].queue_session_id) == Some(queue@),
                forall|i: int|
                    0 <= i < j ==> !recovery::takes_from(
                        *self,
                        #[trigger] stale.take(k as int)[i],
                        queue@,
                    ),
            decreases k - j,
        {
            let entry = &entries[j];
            assert(is_stale_entry(*entry, stale[j as int]));
            let same = match &entry.queue_session_id {
                Some(other) => same_text(other.as_str(), queue.as_str()),
                None => false,
            };
            if same && redo::find_backup(
                &self.backups,
                entry.turn_id.as_str(),
                entry.revision,
            ).is_none() {
                assert(recovery::takes_from(*self, stale.take(k as int)[j as int], queue@));
                return false;
            }
            j += 1;
        }
        true
    }

    /// Whether the numbers and the indices that it takes to recover the turns
    /// `entries` are there.
    fn numbers_suffice(&self, entries: &Vec<StaleTurn>, Ghost(stale): Ghost<Seq<TurnRow>>) -> (r:
        bool)
        requires
            self.wf(),
            are_stale_entries(entries@, stale),
            forall|j: int| 0 <= j < stale.len() ==> self.turns@.contains(#[trigger] stale[j]),
            forall|i: int, j: int|
                0 <= i < j < stale.len() ==> (#[trigger] stale[i]).turn_id@ != (
                #[trigger] stale[j]).turn_id@,
        ensures
            r == (recovery::planned(*self, stale) is Some),
    {
        let mut rows = copy_turns(&self.turns);
        let mut k: usize = 0;
        assert(stale.take(0) =~= Seq::empty());
        while k < entries.len()
            invariant
                k <= entries@.len(),
                self.wf(),
                are_stale_entries(entries@, stale),
                forall|i: int, j: int|
                    0 <= i < j < stale.len() ==> (#[trigger] stale[i]).turn_id@ != (
                    #[trigger] stale[j]).turn_id@,
                recovery::planned(*self, stale.take(k as int)) == Some(rows@),
                super::turns_ordered(rows@),
                forall|j: int| k <= j < stale.len() ==> rows@.contains(#[trigger] stale[j]),
            decreases entries@.len() - k,
        {
            let entry = &entries[k];
            let ghost turn = stale[k as int];
            let ghost was = rows@;
            assert(is_stale_entry(*entry, turn));
            proof {
                assert(stale.take(k + 1).drop_last() =~= stale.take(k as int));
                assert(stale.take(k + 1).last() == turn);
                if recovery::planned(*self, stale) is Some {
                    recovery::lemma_planned_part(*self, stale, k + 1);
                }
                lemma_found(was, turn);
            }
            let at: usize = match find_turn(&rows, entry.turn_id.as_str()) {
                Some(at) => at,
                None => return false,
            };
            match redo::find_backup(&self.backups, entry.turn_id.as_str(), entry.revision) {
                Some(b) => {
                    let row = &mut rows[at];
                    row.status = self.backups[b].backup.status;
                    row.revision = if entry.revision == i64::MIN {
                        entry.revision
                    } else {
                        entry.revision - 1
                    };
                    proof {
                        assert(rows@ =~= was.update(at as int, rows@[at as int]));
                        super::lemma_turn_updated(was, at as int, rows@[at as int]);
                        recovery::lemma_updated_keeps(was, at as int, rows@[at as int]);
                    }
                },
                None => {
                    if self.is_still_waiting(entries, k, Ghost(stale)) {
                        if let Some(last) = queue::find_last_segment(
                            &self.segments,
                            entry.turn_id.as_str(),
                            entry.revision,
                        ) {
                            if self.segments[last].segment_index == i64::MAX {
                                return false;
                            }
                        }
                    }
                    let row = &mut rows[at];
                    row.status = TurnStatus::Interrupted;
                    proof {
                        assert(rows@ =~= was.update(at as int, recovery::ended(turn)));
                        super::lemma_turn_updated(was, at as int, rows@[at as int]);
                        recovery::lemma_bumped_keeps(was, at as int, rows@[at as int]);
                    }
                    if turns::is_stuck(&rows, at) {
                        return false;
                    }
                    bump_completion_seq(&mut rows, at);
                },
            }
            proof {
                assert forall|j: int| k + 1 <= j < stale.len() implies rows@.contains(
                    #[trigger] stale[j],
                ) by {
                    assert(stale[k as int].turn_id@ != stale[j].turn_id@);
                    assert(was.contains(stale[j]));
                }
            }
            k += 1;
        }
        assert(stale.take(stale.len() as int) =~= stale);
        true
    }
}

impl ConversationDb {
    /// Closes the running turns whose process is not among `alive`. Undoes
    /// those that were being redone. `gather` gives what the journal of a turn
    /// shows, where it shows anything.
    pub fn recover_stale_running_turns<F: Fn(&ConversationDb, &String) -> Option<Vec<ReplayEntry>>>(
        &mut self,
        alive: &Vec<u32>,
        gather: F,
        now: &Stamp,
    ) -> (recoveries: Result<Vec<StaleTurnRecovery>, DbError>)
        requires
            old(self).wf(),
            forall|db: &ConversationDb, id: &String| gather.requires((db, id)),
        ensures
            final(self).wf(),
            recoveries is Ok <==> recovery::planned(
                *old(self),
                stale_turns(old(self).turns@, alive@),
            ) is Some,
            recoveries is Ok ==> recovered_all(
                *old(self),
                *final(self),
                stale_turns(old(self).turns@, alive@),
                recoveries->Ok_0@,
                gather,
                now.text,
            ),
            recoveries is Err ==> recoveries->Err_0 == DbError::SequenceFull && *final(self)
                == *old(self),
    {
        let entries = find_stale(&self.turns, alive);
        let ghost before = *self;
        let ghost stale = stale_turns(before.turns@, alive@);
        proof {
            lemma_stale(before.turns@, alive@);
        }
        if !self.numbers_suffice(&entries, Ghost(stale)) {
            return Err(DbError::SequenceFull);
        }
        proof {
            recovery::lemma_follows_first(before, stale);
        }
        let mut recoveries: Vec<StaleTurnRecovery> = Vec::new();
        let mut k: usize = 0;
        while k < entries.len()
            invariant
                k <= entries@.len(),
                before.wf(),
                self.wf(),
                are_stale_entries(entries@, stale),
                forall|j: int, i: int|
                    0 <= j < i < stale.len() ==> (#[trigger] stale[j]).turn_id@ != (
                    #[trigger] stale[i]).turn_id@,
                forall|j: int|
                    0 <= j < stale.len() ==> (#[trigger] stale[j]).status == TurnStatus::Running,
                recovery::planned(before, stale) is Some,
                recovery::follows(before, *self, stale, k as int),
                recovered_all(
                    before,
                    *self,
                    stale.take(k as int),
                    recoveries@,
                    gather,
                    now.text,
                ),
                forall|db: &ConversationDb, id: &String| gather.requires((db, id)),
            decreases entries@.len() - k,
        {
            let entry = &entries[k];
            let ghost turn = stale[k as int];
            let ghost was = *self;
            let ghost so_far = recoveries@;
            assert(is_stale_entry(*entry, turn));
            proof {
                recovery::lemma_planned_part(before, stale, k + 1);
                recovery::lemma_can_recover(before, was, stale, k as int);
            }
            let restored = self.recover_stale_turn(
                &entry.turn_id,
                entry.revision,
                &entry.queue_session_id,
                &gather,
                now,
                Ghost(turn),
            );
            recoveries.push(
                StaleTurnRecovery {
                    turn_id: entry.turn_id.clone(),
                    session_id: entry.session_id.clone(),
                    restored_redo: restored,
                },
            );
            proof {
                assert(stale.take(k + 1) =~= stale.take(k as int).push(turn));
                lemma_one_more(
                    before,
                    was,
                    *self,
                    stale.take(k as int),
                    turn,
                    so_far,
                    recoveries@.last(),
                    gather,
                    now.text,
                );
                assert(recoveries@ =~= so_far.push(recoveries@.last()));
                recovery::lemma_follows_next(
                    before,
                    was,
                    *self,
                    stale,
                    k as int,
                    restored,
                    gather,
                    now.text,
                );
            }
            k += 1;
        }
        assert(stale.take(stale.len() as int) =~= stale);
        Ok(recoveries)
    }
}

/// Whether a turn of a session is running.
pub open spec fn runs_in(turn: TurnRow, session: Seq<char>) -> bool {
    turn.session_id@ == session && turn.status == TurnStatus::Running
}

/// The last running turn of a session, and -1 where there is none, among the
/// first `n`.
pub open spec fn last_running(turns: Seq<TurnRow>, session: Seq<char>, n: int) -> int
    decreases n,
{
    if n <= 0 {
        -1
    } else if runs_in(turns[n - 1], session) {
        n - 1
    } else {
        last_running(turns, session, n - 1)
    }
}

/// The queue of the last message that process `pid` queued, among the first
/// `n`.
pub open spec fn last_queue(prompts: Seq<PromptRow>, pid: i64, n: int) -> Option<String>
    decreases n,
{
    if n <= 0 {
        None
    } else if prompts[n - 1].owner_pid == Some(pid) && prompts[n - 1].queue_session_id is Some {
        prompts[n - 1].queue_session_id
    } else {
        last_queue(prompts, pid, n - 1)
    }
}

/// The queue that messages for a turn go to.
pub open spec fn queue_of(db: ConversationDb, turn: TurnRow) -> Option<String> {
    match (turn.queue_session_id, turn.owner_pid) {
        (Some(queue), _) => Some(queue),
        (None, Some(pid)) => last_queue(db.prompts@, pid, db.prompts@.len() as int),
        (None, None) => None,
    }
}

/// A process id, where the number is one.
pub open spec fn as_pid(pid: Option<i64>) -> Option<u32> {
    match pid {
        Some(pid) => if 0 <= pid <= u32::MAX {
            Some(pid as u32)
        } else {
            None
        },
        None => None,
    }
}

impl ConversationDb {
    /// When a turn began.
    pub fn turn_started_at(&self, turn_id: &str) -> (time: Option<String>)
        requires
            self.wf(),
        ensures
            time == (if self.turn_at(turn_id@) >= 0 {
                Some(self.turns@[self.turn_at(turn_id@)].user_timestamp)
            } else {
                None
            }),
    {
        match find_turn(&self.turns, turn_id) {
            Some(at) => Some(self.turns[at].user_timestamp.clone()),
            None => None,
        }
    }

    /// The session of a turn.
    pub fn turn_session_id(&self, turn_id: &str) -> (session: Option<String>)
        requires
            self.wf(),
        ensures
            session == (if self.turn_at(turn_id@) >= 0 {
                Some(self.turns@[self.turn_at(turn_id@)].session_id)
            } else {
                None
            }),
    {
        match find_turn(&self.turns, turn_id) {
            Some(at) => Some(self.turns[at].session_id.clone()),
            None => None,
        }
    }

    /// The highest number of a turn in a session, 0 where it has none.
    pub fn latest_turn_seq(&self, session_id: &str) -> (seq: i64)
        ensures
            seq == turns::latest_seq(self.turns@, session_id@),
    {
        latest_turn_seq_in(&self.turns, session_id)
    }

    /// The last running turn of a session.
    fn find_last_running(&self, session_id: &str) -> (at: Option<usize>)
        ensures
            match at {
                Some(i) => i < self.turns.len() && last_running(
                    self.turns@,
                    session_id@,
                    self.turns@.len() as int,
                ) == i,
                None => last_running(self.turns@, session_id@, self.turns@.len() as int) == -1,
            },
    {
        let turns = &self.turns;
        let mut n: usize = turns.len();
        while n > 0
            invariant
                n <= turns@.len(),
                *turns == self.turns,
                last_running(turns@, session_id@, turns@.len() as int) == last_running(
                    turns@,
                    session_id@,
                    n as int,
                ),
            decreases n,
        {
            let at: usize = n - 1;
            if turns[at].status == TurnStatus::Running && same_text(
                turns[at].session_id.as_str(),
                session_id,
            ) {
                return Some(at);
            }
            n -= 1;
        }
        None
    }

    /// Whether a turn of a session is running.
    pub fn has_running_turns(&self, session_id: &str) -> (r: bool)
        ensures
            r == exists|i: int|
                0 <= i < self.turns@.len() && runs_in(#[trigger] self.turns@[i], session_id@),
    {
        proof {
            lemma_last_running(self.turns@, session_id@, self.turns@.len() as int);
        }
        self.find_last_running(session_id).is_some()
    }

    /// The running turn that a message for a session goes to, the queue it
    /// goes through and the process that reads it.
    pub fn running_turn_queue_target(&self, session_id: &str) -> (target: Option<
        (String, Option<String>, Option<u32>),
    >)
        ensures
            ({
                let at = last_running(self.turns@, session_id@, self.turns@.len() as int);
                let turn = self.turns@[at];
                target == (if at >= 0 {
                    Some((turn.turn_id, queue_of(*self, turn), as_pid(turn.owner_pid)))
                } else {
                    None
                })
            }),
    {
        let at: usize = match self.find_last_running(session_id) {
            Some(at) => at,
            None => return None,
        };
        let turn = &self.turns[at];
        let pid = match turn.owner_pid {
            Some(pid) => if 0 <= pid && pid <= u32::MAX as i64 {
                Some(pid as u32)
            } else {
                None
            },
            None => None,
        };
        let queue = match &turn.queue_session_id {
            Some(queue) => Some(queue.clone()),
            None => match turn.owner_pid {
                Some(pid) => self.find_last_queue(pid),
                None => None,
            },
        };
        Some((turn.turn_id.clone(), queue, pid))
    }

    /// The queue of the last message that a process queued.
    fn find_last_queue(&self, pid: i64) -> (queue: Option<String>)
        ensures
            queue == last_queue(self.prompts@, pid, self.prompts@.len() as int),
    {
        let prompts = &self.prompts;
        let mut n: usize = prompts.len();
        while n > 0
            invariant
                n <= prompts@.len(),
                *prompts == self.prompts,
                last_queue(prompts@, pid, prompts@.len() as int) == last_queue(
                    prompts@,
                    pid,
                    n as int,
                ),
            decreases n,
        {
            let prompt = &prompts[n - 1];
            let own = match prompt.owner_pid {
                Some(owner) => owner == pid,
                None => false,
            };
            if own && prompt.queue_session_id.is_some() {
                return copy_opt(&prompt.queue_session_id);
            }
            n -= 1;
        }
        None
    }

    /// What the running turns of a session were asked, in order, but for turn
    /// `exclude`.
    pub fn running_turn_summaries_excluding(&self, session_id: &str, exclude_turn_id: &str) -> (
        summaries: Vec<String>)
        ensures
            summaries@ == self.turns@.filter(
                |turn: TurnRow| runs_in(turn, session_id@) && turn.turn_id@ != exclude_turn_id@,
            ).map_values(|turn: TurnRow| turn.user_content),
    {
        let turns = &self.turns;
        let ghost chosen = |turn: TurnRow|
            runs_in(turn, session_id@) && turn.turn_id@ != exclude_turn_id@;
        let ghost content = |turn: TurnRow| turn.user_content;
        let mut out: Vec<String> = Vec::new();
        let mut i: usize = 0;
        proof {
            reveal(Seq::filter);
            assert(turns@.take(0).filter(chosen) =~= Seq::empty());
        }
        while i < turns.len()
            invariant
                i <= turns@.len(),
                chosen == (|turn: TurnRow|
                    runs_in(turn, session_id@) && turn.turn_id@ != exclude_turn_id@),
                content == (|turn: TurnRow| turn.user_content),
                out@ =~= turns@.take(i as int).filter(chosen).map_values(content),
            decreases turns@.len() - i,
        {
            proof {
                table::lemma_filter_step(turns@, chosen, i as int);
            }
            if turns[i].status == TurnStatus::Running && same_text(
                turns[i].session_id.as_str(),
                session_id,
            ) && !same_text(turns[i].turn_id.as_str(), exclude_turn_id) {
                out.push(turns[i].user_content.clone());
            }
            i += 1;
        }
        assert(turns@.take(turns@.len() as int) =~= turns@);
        out
    }

    /// What the running turns of a session were asked, in order.
    pub fn running_turn_summaries(&self, session_id: &str) -> (summaries: Vec<String>)
        ensures
            summaries@ == self.turns@.filter(
                |turn: TurnRow| runs_in(turn, session_id@),
            ).map_values(|turn: TurnRow| turn.user_content),
    {
        let turns = &self.turns;
        let ghost chosen = |turn: TurnRow| runs_in(turn, session_id@);
        let ghost content = |turn: TurnRow| turn.user_content;
        let mut out: Vec<String> = Vec::new();
        let mut i: usize = 0;
        proof {
            reveal(Seq::filter);
            assert(turns@.take(0).filter(chosen) =~= Seq::empty());
        }
        while i < turns.len()
            invariant
                i <= turns@.len(),
                chosen == (|turn: TurnRow| runs_in(turn, session_id@)),
                content == (|turn: TurnRow| turn.user_content),
                out@ =~= turns@.take(i as int).filter(chosen).map_values(content),
            decreases turns@.len() - i,
        {
            proof {
                table::lemma_filter_step(turns@, chosen, i as int);
            }
            if turns[i].status == TurnStatus::Running && same_text(
                turns[i].session_id.as_str(),
                session_id,
            ) {
                out.push(turns[i].user_content.clone());
            }
            i += 1;
        }
        assert(turns@.take(turns@.len() as int) =~= turns@);
        out
    }
}

proof fn lemma_last_running(turns: Seq<TurnRow>, session: Seq<char>, n: int)
    requires
        0 <= n <= turns.len(),
    ensures
        ({
            let at = last_running(turns, session, n);
            &&& -1 <= at < n
            &&& at >= 0 ==> runs_in(turns[at], session)
            &&& forall|i: int| at < i < n ==> !runs_in(#[trigger] turns[i], session)
        }),
    decreases n,
{
    if n > 0 && !runs_in(turns[n - 1], session) {
        lemma_last_running(turns, session, n - 1);
    }
}

// ---------------------------------------------------------------------------
// Laws
// ---------------------------------------------------------------------------

/// Whether a turn of that id is there that is offered to be gone on with.
pub open spec fn is_offered(db: ConversationDb, turn_id: Seq<char>) -> bool {
    exists|row: TurnRow| #[trigger]
        db.turns@.contains(row) && row.turn_id@ == turn_id && restart::is_pending(db.events@, row)
}

/// A turn that was closed because its process is gone is offered to be gone on
/// with, unless a claim of it was settled before, and it is not running, so
/// that it is not closed again.
pub proof fn a_recovered_turn_is_offered<
    F: Fn(&ConversationDb, &String) -> Option<Vec<ReplayEntry>>,
>(before: ConversationDb, after: ConversationDb, turn: TurnRow, gather: F, now: String)
    requires
        before.wf(),
        before.turns@.contains(turn),
        stale_closed(before, after, turn, gather, now),
        !restart::has_event(before.events@, turn.turn_id@, restart::RESTART_RESUME_EVENT@),
    ensures
        is_offered(after, turn.turn_id@),
{
    let id = turn.turn_id@;
    let (mid, row, closed, snapshot, cut) = choose|
        mid: ConversationDb,
        row: TurnRow,
        closed: ConversationDb,
        snapshot: Option<Vec<ReplayEntry>>,
        cut: ConversationDb,
    |
        #![trigger stale_steps(before, mid, row, closed, snapshot, cut, after, turn, gather, now)]
        stale_steps(before, mid, row, closed, snapshot, cut, after, turn, gather, now);
    assert(mid.turns == before.turns);
    lemma_found(mid.turns@, turn);
    let at = mid.turn_at(id);
    let ended = mid.turns@.update(at, row);
    let last = if turns::overtaken(ended, at) {
        after.turns@.last()
    } else {
        after.turns@[at]
    };
    assert(after.turns@.contains(last));
    assert(last.turn_id@ == id && last.status == TurnStatus::Interrupted);
    let n = cut.events@.len() as int;
    let claim = after.events@[n];
    assert(claim == after.events@.last());
    assert(claim.turn_id@ == id && claim.kind@ == restart::RESTART_ORPHANED_EVENT@);
    assert(restart::has_event(after.events@, id, restart::RESTART_ORPHANED_EVENT@));
    reveal_strlit("restart_orphaned");
    reveal_strlit("restart_resume");
    reveal_strlit("queued_prompts_consumed");
    assert(restart::RESTART_ORPHANED_EVENT@.len() == 16);
    assert(restart::RESTART_RESUME_EVENT@.len() == 14);
    assert("queued_prompts_consumed"@.len() == 23);
    if restart::has_event(after.events@, id, restart::RESTART_RESUME_EVENT@) {
        let k = choose|k: int|
            0 <= k < after.events@.len() && (#[trigger] after.events@[k]).turn_id@ == id
                && after.events@[k].kind@ == restart::RESTART_RESUME_EVENT@;
        assert(k < n);
        assert(after.events@.drop_last()[k] == after.events@[k]);
        assert(mid.events@[k] == after.events@[k]);
        if k < before.events@.len() {
            if mid.events@.len() > before.events@.len() {
                assert(mid.events@.drop_last()[k] == mid.events@[k]);
            }
            assert(before.events@[k] == mid.events@[k]);
        } else {
            assert(mid.events@[k] == mid.events@.last());
        }
    }
    assert(restart::is_pending(after.events@, last));
}

/// A turn that was stopped is not offered to be gone on with, unless it was
/// claimed before.
pub proof fn a_stopped_turn_is_not_offered(
    before: ConversationDb,
    after: ConversationDb,
    turn_id: Seq<char>,
    tokens: TurnTokens,
    snapshot: Option<Vec<ReplayEntry>>,
    now: Stamp,
)
    requires
        turns::interruption(before, after, turn_id, tokens, snapshot, now),
        !restart::has_event(before.events@, turn_id, restart::RESTART_ORPHANED_EVENT@),
    ensures
        !is_offered(after, turn_id),
{
    assert(after.events == before.events);
}

/// A message for a session goes to the last of its turns that runs, through the
/// queue of that turn, or else the last queue that its process used, and to its
/// process. Where no turn runs it goes nowhere.
pub proof fn messages_go_to_the_last_running_turn(
    db: &ConversationDb,
    session: &str,
    target: Option<(String, Option<String>, Option<u32>)>,
    i: int,
    p: int,
)
    requires
        call_ensures(ConversationDb::running_turn_queue_target, (db, session), target),
    ensures
        (forall|k: int|
            0 <= k < db.turns@.len() ==> !((#[trigger] db.turns@[k]).session_id@ == session@
                && db.turns@[k].status is Running)) ==> target is None,
        0 <= i < db.turns@.len() && db.turns@[i].session_id@ == session@
            && db.turns@[i].status is Running && (forall|k: int|
            i < k < db.turns@.len() ==> !((#[trigger] db.turns@[k]).session_id@ == session@
                && db.turns@[k].status is Running)) ==> (target matches Some((id, queue, pid)) && {
            let turn = db.turns@[i];
            &&& id == turn.turn_id
            &&& turn.queue_session_id is Some ==> queue == turn.queue_session_id
            &&& turn.queue_session_id is None && turn.owner_pid is None ==> queue is None
            &&& turn.queue_session_id is None && turn.owner_pid is Some && 0 <= p < db.prompts@.len()
                && db.prompts@[p].owner_pid == turn.owner_pid && db.prompts@[p].queue_session_id
                is Some && (forall|k: int|
                p < k < db.prompts@.len() ==> !((#[trigger] db.prompts@[k]).owner_pid
                    == turn.owner_pid && db.prompts@[k].queue_session_id is Some)) ==> queue
                == db.prompts@[p].queue_session_id
            &&& pid is Some <==> (turn.owner_pid matches Some(owner) && 0 <= owner
                <= 4_294_967_295)
            &&& pid matches Some(pid) ==> turn.owner_pid == Some(pid as i64)
        }),
{
    let n = db.turns@.len() as int;
    lemma_running_last(db.turns@, session@, n, i);
    if 0 <= i < n {
        if let Some(owner) = db.turns@[i].owner_pid {
            lemma_queue_last(db.prompts@, owner, db.prompts@.len() as int, p);
        }
    }
}

proof fn lemma_running_last(turns: Seq<TurnRow>, session: Seq<char>, n: int, i: int)
    requires
        0 <= n <= turns.len(),
    ensures
        (forall|k: int|
            0 <= k < n ==> !((#[trigger] turns[k]).session_id@ == session && turns[k].status
                is Running)) ==> last_running(turns, session, n) < 0,
        0 <= i < n && turns[i].session_id@ == session && turns[i].status is Running && (forall|
            k: int,
        |
            i < k < n ==> !((#[trigger] turns[k]).session_id@ == session && turns[k].status
                is Running)) ==> last_running(turns, session, n) == i,
    decreases n,
{
    if n > 0 {
        lemma_running_last(turns, session, n - 1, i);
        let here = turns[n - 1];
    }
}

proof fn lemma_queue_last(prompts: Seq<PromptRow>, pid: i64, n: int, p: int)
    requires
        0 <= n <= prompts.len(),
    ensures
        0 <= p < n && prompts[p].owner_pid == Some(pid) && prompts[p].queue_session_id is Some && (
        forall|k: int|
            p < k < n ==> !((#[trigger] prompts[k]).owner_pid == Some(pid)
                && prompts[k].queue_session_id is Some)) ==> last_queue(prompts, pid, n)
            == prompts[p].queue_session_id,
    decreases n,
{
    if n > 0 {
        lemma_queue_last(prompts, pid, n - 1, p);
        let here = prompts[n - 1];
    }
}

/// A session has running turns exactly where one of its turns runs. The highest
/// number of a session is that of one of its turns, no other has a higher one,
/// and it is 0 where there is none.
pub proof fn sessions_are_asked_for_their_turns(
    db: &ConversationDb,
    session: &str,
    runs: bool,
    seq: i64,
    i: int,
)
    requires
        db.wf(),
        call_ensures(ConversationDb::has_running_turns, (db, session), runs),
        call_ensures(ConversationDb::latest_turn_seq, (db, session), seq),
    ensures
        runs <==> exists|k: int|
            0 <= k < db.turns@.len() && (#[trigger] db.turns@[k]).session_id@ == session@
                && db.turns@[k].status is Running,
        0 <= i < db.turns@.len() && db.turns@[i].session_id@ == session@ ==> seq >= db.turns@[i].seq,
        (exists|k: int|
            0 <= k < db.turns@.len() && (#[trigger] db.turns@[k]).session_id@ == session@
                && db.turns@[k].seq == seq) || seq == 0 && (forall|k: int|
            0 <= k < db.turns@.len() ==> (#[trigger] db.turns@[k]).session_id@ != session@),
{
    let n = db.turns@.len() as int;
    turns::lemma_last_turn(db.turns@, session@, n);
    let at = turns::last_turn(db.turns@, session@, n);
    if 0 <= i < n && db.turns@[i].session_id@ == session@ && i < at {
        assert(db.turns@[i].seq < db.turns@[at].seq);
    }
    if at >= 0 {
        let mate = db.turns@[at];
    }
    if runs {
        let k = choose|k: int| 0 <= k < n && runs_in(#[trigger] db.turns@[k], session@);
        assert(db.turns@[k].status is Running);
    }
    if exists|k: int|
        0 <= k < n && (#[trigger] db.turns@[k]).session_id@ == session@ && db.turns@[k].status
            is Running {
        let k = choose|k: int|
            0 <= k < n && (#[trigger] db.turns@[k]).session_id@ == session@ && db.turns@[k].status
                is Running;
        assert(runs_in(db.turns@[k], session@));
    }
}

/// Every turn of a session that runs is summed up by what it was asked, in its
/// place among them, but for the one that is left out.
pub proof fn every_running_turn_is_summed_up(
    db: &ConversationDb,
    session: &str,
    exclude: &str,
    others: Vec<String>,
    all: Vec<String>,
    i: int,
)
    requires
        call_ensures(
            ConversationDb::running_turn_summaries_excluding,
            (db, session, exclude),
            others,
        ),
        call_ensures(ConversationDb::running_turn_summaries, (db, session), all),
        0 <= i < db.turns@.len(),
        db.turns@[i].session_id@ == session@,
        db.turns@[i].status is Running,
    ensures
        ({
            let every = |turn: TurnRow| turn.session_id@ == session@ && turn.status is Running;
            let some = |turn: TurnRow|
                turn.session_id@ == session@ && turn.status is Running && turn.turn_id@ != exclude@;
            let n = db.turns@.len() as int;
            &&& all@.len() == table::count(db.turns@, every, n)
            &&& all@[table::count(db.turns@, every, i)] == db.turns@[i].user_content
            &&& others@.len() == table::count(db.turns@, some, n)
            &&& db.turns@[i].turn_id@ != exclude@ ==> others@[table::count(
                db.turns@,
                some,
                i,
            )] == db.turns@[i].user_content
        }),
{
    let every = |turn: TurnRow| turn.session_id@ == session@ && turn.status is Running;
    let some = |turn: TurnRow|
        turn.session_id@ == session@ && turn.status is Running && turn.turn_id@ != exclude@;
    lemma_told_of(db.turns@, all@, every, i);
    lemma_told_of(db.turns@, others@, some, i);
}

proof fn lemma_told_of(
    turns: Seq<TurnRow>,
    told: Seq<String>,
    wanted: spec_fn(TurnRow) -> bool,
    i: int,
)
    requires
        exists|chosen: spec_fn(TurnRow) -> bool, said: spec_fn(TurnRow) -> String|
            told == #[trigger] turns.filter(chosen).map_values(said) && (forall|turn: TurnRow| #[trigger]
                chosen(turn) == wanted(turn)) && (forall|turn: TurnRow| #[trigger]
                said(turn) == turn.user_content),
        0 <= i < turns.len(),
    ensures
        told.len() == table::count(turns, wanted, turns.len() as int),
        wanted(turns[i]) ==> told[table::count(turns, wanted, i)] == turns[i].user_content,
{
    let (chosen, said) = choose|
        chosen: spec_fn(TurnRow) -> bool,
        said: spec_fn(TurnRow) -> String,
    |
        told == #[trigger] turns.filter(chosen).map_values(said) && (forall|turn: TurnRow| #[trigger]
            chosen(turn) == wanted(turn)) && (forall|turn: TurnRow| #[trigger]
            said(turn) == turn.user_content);
    assert forall|k: int| 0 <= k < turns.len() implies chosen(#[trigger] turns[k]) == wanted(
        turns[k],
    ) by {}
    table::lemma_same_filter(turns, chosen, wanted);
    table::lemma_count(turns, wanted, turns.len() as int);
    if wanted(turns[i]) {
        table::lemma_chosen_place(turns, wanted, i);
    }
}

/// Every running turn without an owner that lives is recovered, in its place,
/// and no other turn is.
pub proof fn every_orphan_is_recovered<
    F: Fn(&ConversationDb, &String) -> Option<Vec<ReplayEntry>>,
>(
    before: ConversationDb,
    after: ConversationDb,
    alive: Seq<u32>,
    recoveries: Seq<StaleTurnRecovery>,
    gather: F,
    now: String,
    i: int,
)
    requires
        recovered_all(
            before,
            after,
            stale_turns(before.turns@, alive),
            recoveries,
            gather,
            now,
        ),
        0 <= i < before.turns@.len(),
        before.turns@[i].status is Running,
        before.turns@[i].owner_pid matches Some(pid) ==> !alive.contains(pid as u32),
    ensures
        ({
            let orphan = |turn: TurnRow|
                turn.status is Running && (turn.owner_pid matches Some(pid) ==> !alive.contains(
                    pid as u32,
                ));
            let place = table::count(before.turns@, orphan, i);
            &&& recoveries.len() == table::count(
                before.turns@,
                orphan,
                before.turns@.len() as int,
            )
            &&& 0 <= place < recoveries.len()
            &&& recoveries[place].turn_id == before.turns@[i].turn_id
            &&& recoveries[place].session_id == before.turns@[i].session_id
        }),
{
    let orphan = |turn: TurnRow|
        turn.status is Running && (turn.owner_pid matches Some(pid) ==> !alive.contains(pid as u32));
    let stale = stale_turns(before.turns@, alive);
    table::lemma_same_filter(
        before.turns@,
        |turn: TurnRow| turn.status == TurnStatus::Running && !is_owned(turn, alive),
        orphan,
    );
    table::lemma_count(before.turns@, orphan, before.turns@.len() as int);
    table::lemma_chosen_place(before.turns@, orphan, i);
    lemma_recovery_of(
        before,
        after,
        stale,
        recoveries,
        gather,
        now,
        table::count(before.turns@, orphan, i),
    );
}

proof fn lemma_recovery_of<F: Fn(&ConversationDb, &String) -> Option<Vec<ReplayEntry>>>(
    before: ConversationDb,
    after: ConversationDb,
    stale: Seq<TurnRow>,
    recoveries: Seq<StaleTurnRecovery>,
    gather: F,
    now: String,
    k: int,
)
    requires
        recovered_all(before, after, stale, recoveries, gather, now),
        0 <= k < stale.len(),
    ensures
        recoveries.len() == stale.len(),
        recoveries[k].turn_id == stale[k].turn_id,
        recoveries[k].session_id == stale[k].session_id,
    decreases stale.len(),
{
    if k < stale.len() - 1 {
        let mid = choose|mid: ConversationDb|
            mid.wf() && #[trigger] recovered(
                mid,
                after,
                stale.last(),
                recoveries.last().restored_redo,
                gather,
                now,
            ) && recovered_all(
                before,
                mid,
                stale.drop_last(),
                recoveries.drop_last(),
                gather,
                now,
            );
        lemma_recovery_of(
            before,
            mid,
            stale.drop_last(),
            recoveries.drop_last(),
            gather,
            now,
            k,
        );
    }
}

/// A turn was asked when its message came, and is of the session that it is in.
pub proof fn a_turn_is_of_its_session(
    db: &ConversationDb,
    turn_id: &str,
    time: Option<String>,
    session: Option<String>,
    i: int,
)
    requires
        db.wf(),
        call_ensures(ConversationDb::turn_started_at, (db, turn_id), time),
        call_ensures(ConversationDb::turn_session_id, (db, turn_id), session),
        -1 <= i < db.turns@.len(),
        i >= 0 ==> db.turns@[i].turn_id@ == turn_id@,
        i == -1 ==> forall|k: int|
            0 <= k < db.turns@.len() ==> (#[trigger] db.turns@[k]).turn_id@ != turn_id@,
    ensures
        i >= 0 ==> time == Some(db.turns@[i].user_timestamp) && session == Some(
            db.turns@[i].session_id,
        ),
        i == -1 ==> time is None && session is None,
{
    if i >= 0 {
        super::lemma_turn_at(db.turns@, turn_id@, i);
    } else if db.turn_at(turn_id@) >= 0 {
        let k = db.turn_at(turn_id@);
        assert(super::is_turn_at(db.turns@, turn_id@, k));
    }
}

} // verus!
