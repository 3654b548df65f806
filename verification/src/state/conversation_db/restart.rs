//! Turns that a restart cut off.
//!
//! A turn that is running and whose process is gone is an orphan. Whoever opens
//! the database first closes it and leaves a claim in its journal, and the next
//! service to start goes on with what was claimed and not settled.

use vstd::prelude::*;

use crate::clock::{self, read_rfc3339, Moment};
use crate::json::{self, quote_json, read_json};
use crate::table;
use crate::text::{self, comes_before, same_text};

use super::queue::{self, find_last_segment};
use super::rows::{
    copy_opt, EventRow, SegmentRow, Stamp, TurnRow, TurnStatus, TurnTokens,
};
use super::{find_turn, ConversationDb};

verus! {

pub const RESTART_ORPHANED_EVENT: &'static str = "restart_orphaned";

pub const RESTART_RESUME_EVENT: &'static str = "restart_resume";

/// The later of a time and another one, as texts.
pub open spec fn later_text(a: Option<Seq<char>>, b: Seq<char>) -> Option<Seq<char>> {
    match a {
        Some(a) => if text::precedes(a, b) {
            Some(b)
        } else {
            Some(a)
        },
        None => Some(b),
    }
}

/// When the last of the first `n` events of a generation happened.
pub open spec fn last_event_time(
    events: Seq<EventRow>,
    turn_id: Seq<char>,
    revision: i64,
    n: int,
) -> Option<Seq<char>>
    decreases n,
{
    if n <= 0 {
        None
    } else {
        let before = last_event_time(events, turn_id, revision, n - 1);
        let event = events[n - 1];
        if event.turn_id@ == turn_id && event.revision == revision {
            later_text(before, event.created_at@)
        } else {
            before
        }
    }
}

/// When a turn last did something: at its last event, or when it began.
pub open spec fn last_activity(db: ConversationDb, turn_id: Seq<char>, revision: i64) -> Option<
    Seq<char>,
> {
    match last_event_time(db.events@, turn_id, revision, db.events@.len() as int) {
        Some(time) => Some(time),
        None => if db.turn_at(turn_id) >= 0 {
            Some(db.turns@[db.turn_at(turn_id)].user_timestamp@)
        } else {
            None
        },
    }
}

/// Whether a session has a turn behind a number.
pub open spec fn is_followed(turns: Seq<TurnRow>, session: Seq<char>, seq: i64) -> bool {
    exists|i: int|
        0 <= i < turns.len() && (#[trigger] turns[i]).session_id@ == session && turns[i].seq > seq
}

impl ConversationDb {
    /// When a turn last did something.
    pub fn last_turn_activity(&self, turn_id: &str, revision: i64) -> (time: Option<String>)
        requires
            self.wf(),
        ensures
            json::opt_text(time) == last_activity(*self, turn_id@, revision),
    {
        let events = &self.events;
        let mut latest: Option<String> = None;
        let mut i: usize = 0;
        while i < events.len()
            invariant
                i <= events@.len(),
                json::opt_text(latest) == last_event_time(
                    events@,
                    turn_id@,
                    revision,
                    i as int,
                ),
            decreases events@.len() - i,
        {
            if events[i].revision == revision && same_text(events[i].turn_id.as_str(), turn_id) {
                let newer = match &latest {
                    Some(time) => comes_before(time.as_str(), events[i].created_at.as_str()),
                    None => true,
                };
                if newer {
                    latest = Some(events[i].created_at.clone());
                }
            }
            i += 1;
        }
        if latest.is_some() {
            return latest;
        }
        match find_turn(&self.turns, turn_id) {
            Some(at) => Some(self.turns[at].user_timestamp.clone()),
            None => None,
        }
    }
}

/// What a claim says: when the turn last did something.
pub open spec fn claim_payload(activity: Option<Seq<char>>) -> Seq<char> {
    "{\"last_activity\":"@ + (match activity {
        Some(time) => json::json_quoted(time),
        None => "null"@,
    }) + "}"@
}

/// What a claim says.
fn write_claim(activity: &Option<String>) -> (payload: String)
    ensures
        payload@ == claim_payload(json::opt_text(*activity)),
{
    let mut out = "{\"last_activity\":".to_owned();
    match activity {
        Some(time) => out.append(quote_json(time.as_str()).as_str()),
        None => out.append("null"),
    }
    out.append("}");
    out
}

/// What settling a claim says.
pub open spec fn settlement_payload(outcome: Seq<char>, detail: Seq<char>) -> Seq<char> {
    "{\"detail\":"@ + json::json_quoted(detail) + ",\"outcome\":"@ + json::json_quoted(outcome)
        + "}"@
}

/// What settling a claim says.
fn write_settlement(outcome: &str, detail: &str) -> (payload: String)
    ensures
        payload@ == settlement_payload(outcome@, detail@),
{
    let mut out = "{\"detail\":".to_owned();
    out.append(quote_json(detail).as_str());
    out.append(",\"outcome\":");
    out.append(quote_json(outcome).as_str());
    out.append("}");
    out
}

/// The segment that an event about a whole generation is put in: its last one,
/// 0 where it has none.
pub open spec fn closing_index(segments: Seq<SegmentRow>, turn_id: Seq<char>, revision: i64) -> i64 {
    let at = queue::last_segment(segments, turn_id, revision, segments.len() as int);
    if at >= 0 {
        segments[at].segment_index
    } else {
        0
    }
}

/// Whether an event about a whole generation is what it should be.
pub open spec fn is_lifecycle(
    event: EventRow,
    turn_id: String,
    revision: i64,
    segment_index: i64,
    kind: Seq<char>,
    payload: Seq<char>,
    now: String,
) -> bool {
    &&& event.turn_id == turn_id
    &&& event.revision == revision
    &&& event.segment_index == segment_index
    &&& event.kind@ == kind
    &&& event.call_id is None && event.name is None && event.blob_payload is None && event.ok
        is None
    &&& json::opt_text(event.text_payload) == Some(payload)
    &&& event.created_at == now
}

/// The tables with an event about a whole generation added.
pub open spec fn lifecycle_added(
    before: ConversationDb,
    after: ConversationDb,
    turn_id: String,
    revision: i64,
    kind: Seq<char>,
    payload: Seq<char>,
    now: String,
) -> bool {
    &&& after.events@.len() == before.events@.len() + 1
    &&& after.events@.drop_last() == before.events@
    &&& is_lifecycle(
        after.events@.last(),
        turn_id,
        revision,
        closing_index(before.segments@, turn_id@, revision),
        kind,
        payload,
        now,
    )
    &&& after == (ConversationDb { events: after.events, ..before })
}

impl ConversationDb {
    /// Adds an event about a whole generation.
    fn insert_lifecycle_event(
        &mut self,
        turn_id: &String,
        revision: i64,
        kind: &str,
        payload: String,
        now: &String,
    )
        requires
            old(self).wf(),
        ensures
            final(self).wf(),
            lifecycle_added(
                *old(self),
                *final(self),
                *turn_id,
                revision,
                kind@,
                payload@,
                *now,
            ),
    {
        let segment_index: i64 = match find_last_segment(&self.segments, turn_id.as_str(), revision)
        {
            Some(at) => self.segments[at].segment_index,
            None => 0,
        };
        let ghost before = self.events@;
        self.events.push(
            EventRow {
                turn_id: turn_id.clone(),
                revision,
                segment_index,
                kind: kind.to_owned(),
                call_id: None,
                name: None,
                text_payload: Some(payload),
                blob_payload: None,
                ok: None,
                created_at: now.clone(),
            },
        );
        assert(self.events@.drop_last() =~= before);
    }

    /// Leaves a claim in the journal of a turn that was just closed.
    /// `activity` is when it last did something before it was closed.
    pub(crate) fn mark_restart_orphan(
        &mut self,
        turn_id: &String,
        revision: i64,
        activity: &Option<String>,
        now: &String,
    )
        requires
            old(self).wf(),
        ensures
            final(self).wf(),
            lifecycle_added(
                *old(self),
                *final(self),
                *turn_id,
                revision,
                RESTART_ORPHANED_EVENT@,
                claim_payload(json::opt_text(*activity)),
                *now,
            ),
    {
        let payload = write_claim(activity);
        self.insert_lifecycle_event(turn_id, revision, RESTART_ORPHANED_EVENT, payload, now);
    }

    /// Settles the claim of a turn: it was gone on with, or not, and why.
    /// Settling it again does no harm, nor does settling that of no turn.
    pub fn close_restart_orphan(
        &mut self,
        turn_id: &str,
        outcome: &str,
        detail: &str,
        now: &Stamp,
    )
        requires
            old(self).wf(),
        ensures
            final(self).wf(),
            is_settled(*old(self), *final(self), turn_id@, outcome@, detail@, now.text),
    {
        let at: usize = match find_turn(&self.turns, turn_id) {
            Some(at) => at,
            None => return ,
        };
        let own_id = self.turns[at].turn_id.clone();
        let revision: i64 = self.turns[at].revision;
        let payload = write_settlement(outcome, detail);
        self.insert_lifecycle_event(&own_id, revision, RESTART_RESUME_EVENT, payload, &now.text);
    }
}

/// What settling the claim of a turn comes to.
pub open spec fn is_settled(
    before: ConversationDb,
    after: ConversationDb,
    turn_id: Seq<char>,
    outcome: Seq<char>,
    detail: Seq<char>,
    now: String,
) -> bool {
    if before.turn_at(turn_id) >= 0 {
        let turn = before.turns@[before.turn_at(turn_id)];
        lifecycle_added(
            before,
            after,
            turn.turn_id,
            turn.revision,
            RESTART_RESUME_EVENT@,
            settlement_payload(outcome, detail),
            now,
        )
    } else {
        after == before
    }
}

/// What writing down what a turn used comes to.
pub open spec fn is_suspended(
    before: ConversationDb,
    after: ConversationDb,
    turn_id: Seq<char>,
    tokens: TurnTokens,
) -> bool {
    let at = before.turn_at(turn_id);
    if (tokens.total > 0 || tokens.prompt > 0) && super::turns::is_running(before, turn_id) {
        &&& after.turns@ == before.turns@.update(
            at,
            TurnRow {
                token_total: tokens.total as i64,
                token_prompt: tokens.prompt as i64,
                token_cache_read: tokens.cache_read as i64,
                ..before.turns@[at]
            },
        )
        &&& after == (ConversationDb { turns: after.turns, ..before })
    } else {
        after == before
    }
}

/// A turn that waits for a decision whether to go on with it.
#[derive(Debug)]
pub struct RestartOrphan {
    pub turn_id: String,
    pub session_id: String,
    pub seq: i64,
    pub user_content: String,
    /// Where the turn was working.
    pub workspace: Option<String>,
    /// When it last did something.
    pub last_activity: Option<Moment>,
}

/// Whether the journal of a turn holds an event of a kind.
pub open spec fn has_event(events: Seq<EventRow>, turn_id: Seq<char>, kind: Seq<char>) -> bool {
    exists|i: int|
        0 <= i < events.len() && (#[trigger] events[i]).turn_id@ == turn_id && events[i].kind@
            == kind
}

/// What the last event of a kind in the journal of a turn says, among the
/// first `n`.
pub open spec fn last_payload(
    events: Seq<EventRow>,
    turn_id: Seq<char>,
    kind: Seq<char>,
    n: int,
) -> Option<Option<Seq<char>>>
    decreases n,
{
    if n <= 0 {
        None
    } else if events[n - 1].turn_id@ == turn_id && events[n - 1].kind@ == kind {
        Some(json::opt_text(events[n - 1].text_payload))
    } else {
        last_payload(events, turn_id, kind, n - 1)
    }
}

/// When a claim says that its turn last did something.
pub open spec fn claimed_activity(payload: Seq<char>) -> Option<Moment> {
    match json::json_shape(payload) {
        Some(shape) => match json::member_text(shape, "last_activity"@) {
            Some(time) => clock::rfc3339_moment(time),
            None => None,
        },
        None => None,
    }
}

/// When a claim says that its turn last did something.
fn parse_last_activity(payload: &str) -> (moment: Option<Moment>)
    ensures
        moment == claimed_activity(payload@),
{
    match read_json(payload) {
        Some(shape) => match shape.get_text("last_activity") {
            Some(time) => read_rfc3339(time.as_str()),
            None => None,
        },
        None => None,
    }
}

/// Whether a turn was claimed and the claim is not settled.
pub open spec fn is_pending(events: Seq<EventRow>, turn: TurnRow) -> bool {
    turn.status == TurnStatus::Interrupted && has_event(
        events,
        turn.turn_id@,
        RESTART_ORPHANED_EVENT@,
    ) && !has_event(events, turn.turn_id@, RESTART_RESUME_EVENT@)
}

/// What is known of an orphan.
pub open spec fn is_orphan_of(events: Seq<EventRow>, turn: TurnRow, orphan: RestartOrphan) -> bool {
    &&& orphan.turn_id == turn.turn_id
    &&& orphan.session_id == turn.session_id
    &&& orphan.seq == turn.seq
    &&& orphan.user_content == turn.user_content
    &&& orphan.workspace == turn.workspace
    &&& orphan.last_activity == (match last_payload(
        events,
        turn.turn_id@,
        RESTART_ORPHANED_EVENT@,
        events.len() as int,
    ) {
        Some(Some(payload)) => claimed_activity(payload),
        _ => None,
    })
}

/// Where a turn goes in a list that is sorted by session, after those of its
/// session, looking at the first `n`.
pub open spec fn session_place(turns: Seq<TurnRow>, session: Seq<char>, n: int) -> int
    decreases n,
{
    if n <= 0 {
        0
    } else if text::precedes(session, turns[n - 1].session_id@) {
        session_place(turns, session, n - 1)
    } else {
        n
    }
}

/// Turns sorted by session, in their order within one.
pub open spec fn by_session(turns: Seq<TurnRow>) -> Seq<TurnRow>
    decreases turns.len(),
{
    if turns.len() == 0 {
        Seq::empty()
    } else {
        let sorted = by_session(turns.drop_last());
        let turn = turns.last();
        sorted.insert(session_place(sorted, turn.session_id@, sorted.len() as int), turn)
    }
}

/// The turns that were claimed and not settled.
pub open spec fn pending(db: ConversationDb) -> Seq<TurnRow> {
    db.turns@.filter(|turn: TurnRow| is_pending(db.events@, turn))
}

proof fn lemma_session_place(turns: Seq<TurnRow>, session: Seq<char>, n: int)
    requires
        0 <= n <= turns.len(),
    ensures
        0 <= session_place(turns, session, n) <= n,
    decreases n,
{
    if n > 0 {
        lemma_session_place(turns, session, n - 1);
    }
}

/// Whether the journal of a turn holds an event of a kind.
fn event_exists(events: &Vec<EventRow>, turn_id: &str, kind: &str) -> (r: bool)
    ensures
        r == has_event(events@, turn_id@, kind@),
{
    let mut i: usize = 0;
    while i < events.len()
        invariant
            i <= events@.len(),
            forall|k: int|
                0 <= k < i ==> !((#[trigger] events@[k]).turn_id@ == turn_id@ && events@[k].kind@
                    == kind@),
        decreases events@.len() - i,
    {
        if same_text(events[i].turn_id.as_str(), turn_id) && same_text(
            events[i].kind.as_str(),
            kind,
        ) {
            return true;
        }
        i += 1;
    }
    false
}

/// When the claim of a turn says that it last did something.
fn activity_of(events: &Vec<EventRow>, turn_id: &str) -> (moment: Option<Moment>)
    ensures
        moment == (match last_payload(
            events@,
            turn_id@,
            RESTART_ORPHANED_EVENT@,
            events@.len() as int,
        ) {
            Some(Some(payload)) => claimed_activity(payload),
            _ => None,
        }),
{
    let mut n: usize = events.len();
    while n > 0
        invariant
            n <= events@.len(),
            last_payload(events@, turn_id@, RESTART_ORPHANED_EVENT@, events@.len() as int)
                == last_payload(events@, turn_id@, RESTART_ORPHANED_EVENT@, n as int),
        decreases n,
    {
        let event = &events[n - 1];
        if same_text(event.turn_id.as_str(), turn_id) && same_text(
            event.kind.as_str(),
            RESTART_ORPHANED_EVENT,
        ) {
            return match &event.text_payload {
                Some(payload) => parse_last_activity(payload.as_str()),
                None => None,
            };
        }
        n -= 1;
    }
    None
}

/// Whether each orphan of a list is that of the turn in its place.
pub open spec fn are_orphans_of(
    events: Seq<EventRow>,
    turns: Seq<TurnRow>,
    orphans: Seq<RestartOrphan>,
) -> bool {
    &&& orphans.len() == turns.len()
    &&& forall|i: int|
        0 <= i < turns.len() ==> is_orphan_of(events, turns[i], #[trigger] orphans[i])
}

impl ConversationDb {
    /// The turns that were claimed and not settled, by session and in their
    /// order within one.
    pub fn pending_restart_orphans(&self) -> (orphans: Vec<RestartOrphan>)
        requires
            self.wf(),
        ensures
            are_orphans_of(self.events@, by_session(pending(*self)), orphans@),
    {
        let turns = &self.turns;
        let events = &self.events;
        let ghost chosen = |turn: TurnRow| is_pending(self.events@, turn);
        let mut orphans: Vec<RestartOrphan> = Vec::new();
        let mut i: usize = 0;
        proof {
            reveal(Seq::filter);
            assert(turns@.take(0).filter(chosen) =~= Seq::empty());
        }
        while i < turns.len()
            invariant
                i <= turns@.len(),
                turns@ == self.turns@,
                events@ == self.events@,
                chosen == (|turn: TurnRow| is_pending(self.events@, turn)),
                are_orphans_of(
                    events@,
                    by_session(turns@.take(i as int).filter(chosen)),
                    orphans@,
                ),
            decreases turns@.len() - i,
        {
            let turn = &turns[i];
            let ghost picked = turns@.take(i as int).filter(chosen);
            let ghost sorted = by_session(picked);
            proof {
                table::lemma_filter_step(turns@, chosen, i as int);
            }
            if turn.status == TurnStatus::Interrupted && event_exists(
                events,
                turn.turn_id.as_str(),
                RESTART_ORPHANED_EVENT,
            ) && !event_exists(events, turn.turn_id.as_str(), RESTART_RESUME_EVENT) {
                let mut n: usize = orphans.len();
                while n > 0 && comes_before(
                    turn.session_id.as_str(),
                    orphans[n - 1].session_id.as_str(),
                )
                    invariant
                        n <= orphans@.len(),
                        are_orphans_of(events@, sorted, orphans@),
                        session_place(sorted, turn.session_id@, sorted.len() as int)
                            == session_place(sorted, turn.session_id@, n as int),
                    decreases n,
                {
                    assert(is_orphan_of(events@, sorted[n - 1], orphans@[n - 1]));
                    n -= 1;
                }
                proof {
                    if n > 0 {
                        assert(is_orphan_of(events@, sorted[n - 1], orphans@[n - 1]));
                    }
                    assert(picked.push(*turn).drop_last() =~= picked);
                }
                let ghost was = orphans@;
                let orphan = RestartOrphan {
                    turn_id: turn.turn_id.clone(),
                    session_id: turn.session_id.clone(),
                    seq: turn.seq,
                    user_content: turn.user_content.clone(),
                    workspace: copy_opt(&turn.workspace),
                    last_activity: activity_of(events, turn.turn_id.as_str()),
                };
                orphans.insert(n, orphan);
                proof {
                    let now = by_session(picked.push(*turn));
                    assert(now == sorted.insert(n as int, *turn));
                    assert forall|k: int| 0 <= k < now.len() implies is_orphan_of(
                        events@,
                        now[k],
                        #[trigger] orphans@[k],
                    ) by {
                        if k < n {
                            assert(is_orphan_of(events@, sorted[k], was[k]));
                        } else if k > n {
                            assert(is_orphan_of(events@, sorted[k - 1], was[k - 1]));
                        }
                    }
                }
            }
            i += 1;
        }
        assert(turns@.take(turns@.len() as int) =~= turns@);
        orphans
    }

    /// Whether a session has a turn after number `seq`.
    pub fn has_turn_after(&self, session_id: &str, seq: i64) -> (r: bool)
        ensures
            r == is_followed(self.turns@, session_id@, seq),
    {
        let mut i: usize = 0;
        while i < self.turns.len()
            invariant
                i <= self.turns@.len(),
                forall|k: int|
                    0 <= k < i ==> !((#[trigger] self.turns@[k]).session_id@ == session_id@
                        && self.turns@[k].seq > seq),
            decreases self.turns@.len() - i,
        {
            if self.turns[i].seq > seq && same_text(
                self.turns[i].session_id.as_str(),
                session_id,
            ) {
                return true;
            }
            i += 1;
        }
        false
    }

    /// Writes down what a turn used before the service stops, and leaves it
    /// running, so that the next service finds it.
    pub fn suspend_turn_with_usage(&mut self, turn_id: &str, tokens: TurnTokens)
        requires
            old(self).wf(),
        ensures
            final(self).wf(),
            is_suspended(*old(self), *final(self), turn_id@, tokens),
    {
        if tokens.total == 0 && tokens.prompt == 0 {
            return ;
        }
        let at: usize = match find_turn(&self.turns, turn_id) {
            Some(at) => at,
            None => return ,
        };
        if self.turns[at].status != TurnStatus::Running {
            return ;
        }
        let ghost before = self.turns@;
        let row = &mut self.turns[at];
        row.token_total = tokens.total as i64;
        row.token_prompt = tokens.prompt as i64;
        row.token_cache_read = tokens.cache_read as i64;
        proof {
            assert(self.turns@ =~= before.update(at as int, self.turns@[at as int]));
            super::lemma_turn_updated(before, at as int, self.turns@[at as int]);
        }
    }
}

/// A settled claim is not offered again, whatever it was settled as, and the
/// claims of other turns are not touched by it.
pub proof fn a_settled_claim_is_not_offered_again(
    before: ConversationDb,
    after: ConversationDb,
    turn: TurnRow,
    other: TurnRow,
    payload: Seq<char>,
    now: String,
)
    requires
        lifecycle_added(
            before,
            after,
            turn.turn_id,
            turn.revision,
            RESTART_RESUME_EVENT@,
            payload,
            now,
        ),
        other.turn_id@ != turn.turn_id@,
    ensures
        !is_pending(after.events@, turn),
        is_pending(after.events@, other) == is_pending(before.events@, other),
{
    let n = before.events@.len() as int;
    assert(after.events@[n] == after.events@.last());
    assert forall|i: int| 0 <= i < n implies after.events@[i] == before.events@[i] by {
        assert(after.events@.drop_last()[i] == after.events@[i]);
    }
    let last = after.events@[n];
    assert(last.turn_id@ == turn.turn_id@ && last.kind@ == RESTART_RESUME_EVENT@);
    lemma_events_of_other(before.events@, after.events@, other.turn_id@, RESTART_ORPHANED_EVENT@);
    lemma_events_of_other(before.events@, after.events@, other.turn_id@, RESTART_RESUME_EVENT@);
}

proof fn lemma_events_of_other(
    before: Seq<EventRow>,
    after: Seq<EventRow>,
    turn_id: Seq<char>,
    kind: Seq<char>,
)
    requires
        after.len() == before.len() + 1,
        forall|i: int| 0 <= i < before.len() ==> after[i] == before[i],
        after.last().turn_id@ != turn_id || after.last().kind@ != kind,
    ensures
        has_event(after, turn_id, kind) == has_event(before, turn_id, kind),
{
    if has_event(before, turn_id, kind) {
        let i = choose|i: int|
            0 <= i < before.len() && (#[trigger] before[i]).turn_id@ == turn_id && before[i].kind@
                == kind;
        assert(after[i] == before[i]);
    }
    if has_event(after, turn_id, kind) {
        let i = choose|i: int|
            0 <= i < after.len() && (#[trigger] after[i]).turn_id@ == turn_id && after[i].kind@
                == kind;
        assert(i < before.len());
        assert(after[i] == before[i]);
    }
}

/// Turns sorted by session are sorted by session.
#[verifier::spinoff_prover]
pub proof fn by_session_is_sorted(turns: Seq<TurnRow>)
    ensures
        forall|i: int, j: int|
            0 <= i < j < by_session(turns).len() ==> !text::precedes(
                (#[trigger] by_session(turns)[j]).session_id@,
                (#[trigger] by_session(turns)[i]).session_id@,
            ),
        by_session(turns).to_multiset() == turns.to_multiset(),
    decreases turns.len(),
{
    if turns.len() > 0 {
        let head = turns.drop_last();
        let turn = turns.last();
        by_session_is_sorted(head);
        let sorted = by_session(head);
        let session = turn.session_id@;
        let p = session_place(sorted, session, sorted.len() as int);
        lemma_session_place(sorted, session, sorted.len() as int);
        lemma_session_place_splits(sorted, session, sorted.len() as int);
        let all = by_session(turns);
        assert(all == sorted.insert(p, turn));
        assert forall|i: int, j: int| 0 <= i < j < all.len() implies !text::precedes(
            (#[trigger] all[j]).session_id@,
            (#[trigger] all[i]).session_id@,
        ) by {
            let a = if i < p {
                i
            } else {
                i - 1
            };
            let b = if j < p {
                j
            } else {
                j - 1
            };
            if i != p {
                assert(all[i] == sorted[a]);
            }
            if j != p {
                assert(all[j] == sorted[b]);
            }
            if i == p {
                text::lemma_precedes_total(session, sorted[b].session_id@);
            } else if j == p {
                assert(!text::precedes(session, sorted[a].session_id@));
            } else {
                assert(!text::precedes(sorted[b].session_id@, sorted[a].session_id@));
            }
        }
        assert(turns =~= head.push(turn));
        assert(sorted.insert(p, turn).to_multiset() =~= sorted.to_multiset().insert(turn)) by {
            vstd::seq_lib::to_multiset_insert(sorted, p, turn);
        }
        assert(head.push(turn).to_multiset() =~= head.to_multiset().insert(turn)) by {
            broadcast use vstd::seq_lib::group_to_multiset_ensures;

        }
    } else {
        assert(by_session(turns) =~= turns);
    }
}

/// Everything before the place of a session in a sorted list comes no later
/// than it, and everything from there on later.
proof fn lemma_session_place_splits(turns: Seq<TurnRow>, session: Seq<char>, n: int)
    requires
        0 <= n <= turns.len(),
        forall|i: int, j: int|
            0 <= i < j < turns.len() ==> !text::precedes(
                (#[trigger] turns[j]).session_id@,
                (#[trigger] turns[i]).session_id@,
            ),
        forall|i: int| n <= i < turns.len() ==> text::precedes(session, (#[trigger] turns[i]).session_id@),
    ensures
        ({
            let p = session_place(turns, session, n);
            &&& forall|i: int|
                0 <= i < p ==> !text::precedes(session, (#[trigger] turns[i]).session_id@)
            &&& forall|i: int|
                p <= i < turns.len() ==> text::precedes(session, (#[trigger] turns[i]).session_id@)
        }),
    decreases n,
{
    if n > 0 {
        let here = turns[n - 1].session_id@;
        if text::precedes(session, here) {
            lemma_session_place_splits(turns, session, n - 1);
        } else {
            assert forall|i: int| 0 <= i < n implies !text::precedes(
                session,
                (#[trigger] turns[i]).session_id@,
            ) by {
                if i < n - 1 && text::precedes(session, turns[i].session_id@) {
                    let there = turns[i].session_id@;
                    assert(!text::precedes(here, there));
                    text::lemma_precedes_total(here, there);
                    if here != there {
                        text::lemma_precedes_transitive(session, there, here);
                    }
                }
            }
        }
    }
}

// ---------------------------------------------------------------------------
// Laws
// ---------------------------------------------------------------------------

/// When a turn last did something is when one of the events of its generation
/// happened, and no other of them comes later. Where it has none, it is when
/// the turn began.
pub proof fn the_last_activity_is_the_latest(
    db: &ConversationDb,
    turn_id: &str,
    revision: i64,
    time: Option<String>,
    e: int,
    i: int,
)
    requires
        db.wf(),
        call_ensures(ConversationDb::last_turn_activity, (db, turn_id, revision), time),
    ensures
        0 <= e < db.events@.len() && db.events@[e].turn_id@ == turn_id@ && db.events@[e].revision
            == revision ==> (time matches Some(last) && !text::precedes(
            last@,
            db.events@[e].created_at@,
        ) && exists|k: int|
            0 <= k < db.events@.len() && (#[trigger] db.events@[k]).turn_id@ == turn_id@
                && db.events@[k].revision == revision && db.events@[k].created_at@ == last@),
        (forall|k: int|
            0 <= k < db.events@.len() ==> !((#[trigger] db.events@[k]).turn_id@ == turn_id@
                && db.events@[k].revision == revision)) && 0 <= i < db.turns@.len()
            && db.turns@[i].turn_id@ == turn_id@ ==> (time matches Some(began) && began@
            == db.turns@[i].user_timestamp@),
{
    lemma_latest(db.events@, turn_id@, revision, db.events@.len() as int, e);
    if 0 <= i < db.turns@.len() && db.turns@[i].turn_id@ == turn_id@ {
        super::lemma_turn_at(db.turns@, turn_id@, i);
    }
}

proof fn lemma_latest(
    events: Seq<EventRow>,
    turn_id: Seq<char>,
    revision: i64,
    n: int,
    e: int,
)
    requires
        0 <= n <= events.len(),
    ensures
        ({
            let last = last_event_time(events, turn_id, revision, n);
            &&& 0 <= e < n && events[e].turn_id@ == turn_id && events[e].revision == revision ==> (
            last matches Some(last) && !text::precedes(last, events[e].created_at@))
            &&& last matches Some(last) ==> exists|k: int|
                0 <= k < n && (#[trigger] events[k]).turn_id@ == turn_id && events[k].revision
                    == revision && events[k].created_at@ == last
            &&& (forall|k: int|
                0 <= k < n ==> !((#[trigger] events[k]).turn_id@ == turn_id && events[k].revision
                    == revision)) ==> last is None
        }),
    decreases n,
{
    if n > 0 {
        lemma_latest(events, turn_id, revision, n - 1, e);
        let event = events[n - 1];
        let before = last_event_time(events, turn_id, revision, n - 1);
        if event.turn_id@ == turn_id && event.revision == revision {
            text::lemma_precedes_total(event.created_at@, event.created_at@);
            if let Some(a) = before {
                if 0 <= e < n - 1 && text::precedes(a, event.created_at@) && text::precedes(
                    event.created_at@,
                    events[e].created_at@,
                ) {
                    text::lemma_precedes_transitive(
                        a,
                        event.created_at@,
                        events[e].created_at@,
                    );
                }
            }
        }
    }
}

/// Whether a turn waits to be gone on with: it was interrupted, an event claims
/// it and none settles the claim.
pub open spec fn waits_to_go_on(db: ConversationDb, turn: TurnRow) -> bool {
    &&& turn.status is Interrupted
    &&& exists|k: int|
        0 <= k < db.events@.len() && (#[trigger] db.events@[k]).turn_id@ == turn.turn_id@
            && db.events@[k].kind@ == "restart_orphaned"@
    &&& forall|k: int|
        0 <= k < db.events@.len() ==> !((#[trigger] db.events@[k]).turn_id@ == turn.turn_id@
            && db.events@[k].kind@ == "restart_resume"@)
}

/// Every turn that waits to be gone on with is offered, and every one that is
/// offered waits. They come session by session, and in their order within one.
pub proof fn every_waiting_turn_is_offered(
    db: &ConversationDb,
    orphans: Vec<RestartOrphan>,
    i: int,
    a: int,
    b: int,
)
    requires
        db.wf(),
        call_ensures(ConversationDb::pending_restart_orphans, (db,), orphans),
    ensures
        0 <= i < db.turns@.len() && waits_to_go_on(*db, db.turns@[i]) ==> exists|k: int|
            0 <= k < orphans@.len() && (#[trigger] orphans@[k]).turn_id == db.turns@[i].turn_id
                && orphans@[k].session_id == db.turns@[i].session_id && orphans@[k].seq
                == db.turns@[i].seq && orphans@[k].user_content == db.turns@[i].user_content
                && orphans@[k].workspace == db.turns@[i].workspace,
        0 <= a < orphans@.len() ==> exists|k: int|
            0 <= k < db.turns@.len() && waits_to_go_on(*db, #[trigger] db.turns@[k])
                && db.turns@[k].turn_id == orphans@[a].turn_id,
        0 <= a < b < orphans@.len() ==> !text::precedes(
            orphans@[b].session_id@,
            orphans@[a].session_id@,
        ),
        0 <= a < b < orphans@.len() && orphans@[a].session_id@ == orphans@[b].session_id@
            ==> orphans@[a].seq < orphans@[b].seq,
{
    let waits = |turn: TurnRow| is_pending(db.events@, turn);
    let rows = pending(*db);
    let sorted = by_session(rows);
    by_session_is_sorted(rows);
    rows.to_multiset_ensures();
    sorted.to_multiset_ensures();
    assert forall|turn: TurnRow| waits(turn) == waits_to_go_on(*db, turn) by {
        lemma_waits(*db, turn);
    }
    if 0 <= i < db.turns@.len() && waits_to_go_on(*db, db.turns@[i]) {
        assert(waits(db.turns@[i]));
        db.turns@.lemma_filter_contains(waits, i);
        assert(rows.to_multiset().count(db.turns@[i]) > 0);
        assert(sorted.contains(db.turns@[i]));
        let k = choose|k: int| 0 <= k < sorted.len() && sorted[k] == db.turns@[i];
        assert(is_orphan_of(db.events@, sorted[k], orphans@[k]));
    }
    if 0 <= a < orphans@.len() {
        assert(is_orphan_of(db.events@, sorted[a], orphans@[a]));
        assert(sorted.contains(sorted[a]));
        assert(sorted.to_multiset().count(sorted[a]) > 0);
        assert(rows.contains(sorted[a]));
        let r = choose|r: int| 0 <= r < rows.len() && rows[r] == sorted[a];
        table::lemma_filtered(db.turns@, waits, r);
        assert(db.turns@.filter(waits).contains(sorted[a]));
        db.turns@.lemma_filter_contains_rev(waits, sorted[a]);
        let k = choose|k: int| 0 <= k < db.turns@.len() && db.turns@[k] == sorted[a];
        assert(waits(db.turns@[k]));
        assert(waits_to_go_on(*db, db.turns@[k]));
    }
    if 0 <= a < b < orphans@.len() {
        assert(is_orphan_of(db.events@, sorted[a], orphans@[a]));
        assert(is_orphan_of(db.events@, sorted[b], orphans@[b]));
        lemma_pending_ordered(db.turns@, waits);
        lemma_by_session_keeps_order(rows);
        if sorted[a].session_id@ == sorted[b].session_id@ {
            assert(sorted[a].seq < sorted[b].seq);
        }
    }
}

proof fn lemma_waits(db: ConversationDb, turn: TurnRow)
    ensures
        is_pending(db.events@, turn) == waits_to_go_on(db, turn),
{
    if has_event(db.events@, turn.turn_id@, "restart_resume"@) {
        let k = choose|k: int|
            0 <= k < db.events@.len() && (#[trigger] db.events@[k]).turn_id@ == turn.turn_id@
                && db.events@[k].kind@ == "restart_resume"@;
        let event = db.events@[k];
    }
}

/// Of turns that stand in the order of their numbers within each session, those
/// that are kept do too.
spec fn keeps_numbers(turns: Seq<TurnRow>) -> bool {
    forall|i: int, j: int|
        0 <= i < j < turns.len() && (#[trigger] turns[i]).session_id@ == (
        #[trigger] turns[j]).session_id@ ==> turns[i].seq < turns[j].seq
}

proof fn lemma_pending_ordered(turns: Seq<TurnRow>, keep: spec_fn(TurnRow) -> bool)
    requires
        super::turns_ordered(turns),
    ensures
        keeps_numbers(turns.filter(keep)),
{
    let gone = |turn: TurnRow| !keep(turn);
    table::lemma_same_filter(turns, keep, |turn: TurnRow| !gone(turn));
    let place = table::lemma_without_embeds(turns, gone);
    let rows = turns.filter(keep);
    assert forall|i: int, j: int|
        0 <= i < j < rows.len() && (#[trigger] rows[i]).session_id@ == (
        #[trigger] rows[j]).session_id@ implies rows[i].seq < rows[j].seq by {
        assert(place(i) < place(j));
        assert(turns[place(i)].session_id@ == turns[place(j)].session_id@);
    }
}

proof fn lemma_by_session_keeps_order(turns: Seq<TurnRow>)
    requires
        keeps_numbers(turns),
    ensures
        keeps_numbers(by_session(turns)),
    decreases turns.len(),
{
    if turns.len() > 0 {
        let less = turns.drop_last();
        let turn = turns.last();
        assert(keeps_numbers(less)) by {
            assert forall|i: int, j: int|
                0 <= i < j < less.len() && (#[trigger] less[i]).session_id@ == (
                #[trigger] less[j]).session_id@ implies less[i].seq < less[j].seq by {
                assert(turns[i].session_id@ == turns[j].session_id@);
            }
        }
        lemma_by_session_keeps_order(less);
        by_session_is_sorted(less);
        let sorted = by_session(less);
        let n = sorted.len() as int;
        let p = session_place(sorted, turn.session_id@, n);
        lemma_session_place(sorted, turn.session_id@, n);
        lemma_session_place_splits(sorted, turn.session_id@, n);
        let after = by_session(turns);
        assert(after == sorted.insert(p, turn));
        less.to_multiset_ensures();
        sorted.to_multiset_ensures();
        assert forall|k: int| 0 <= k < n && (#[trigger] sorted[k]).session_id@
            == turn.session_id@ implies sorted[k].seq < turn.seq && k < p by {
            assert(sorted.contains(sorted[k]));
            assert(sorted.to_multiset().count(sorted[k]) > 0);
            assert(less.contains(sorted[k]));
            let w = choose|w: int| 0 <= w < less.len() && less[w] == sorted[k];
            assert(turns[w].session_id@ == turns[turns.len() - 1].session_id@);
            assert(turns[w].seq < turns[turns.len() - 1].seq);
            text::lemma_precedes_total(turn.session_id@, turn.session_id@);
        }
        assert forall|i: int, j: int|
            0 <= i < j < after.len() && (#[trigger] after[i]).session_id@ == (
            #[trigger] after[j]).session_id@ implies after[i].seq < after[j].seq by {
            let a = if i < p {
                i
            } else {
                i - 1
            };
            let b = if j < p {
                j
            } else {
                j - 1
            };
            if i == p {
                assert(after[j] == sorted[b]);
            } else if j == p {
                assert(after[i] == sorted[a]);
            } else {
                assert(after[i] == sorted[a] && after[j] == sorted[b]);
            }
        }
    }
}

/// Settling the claim of a turn adds one event to its journal that says so with
/// its outcome, and nothing else. Where there is no such turn nothing happens.
pub proof fn settling_adds_one_event(
    before: ConversationDb,
    after: ConversationDb,
    turn_id: Seq<char>,
    outcome: Seq<char>,
    detail: Seq<char>,
    now: String,
    i: int,
)
    requires
        before.wf(),
        is_settled(before, after, turn_id, outcome, detail, now),
    ensures
        0 <= i < before.turns@.len() && before.turns@[i].turn_id@ == turn_id ==> {
            let event = after.events@.last();
            &&& after.events@.len() == before.events@.len() + 1
            &&& after.events@.drop_last() == before.events@
            &&& event.turn_id@ == turn_id && event.revision == before.turns@[i].revision
            &&& event.kind@ == "restart_resume"@ && event.created_at == now
            &&& event.text_payload matches Some(payload) && payload@ == "{\"detail\":"@
                + json::json_quoted(detail) + ",\"outcome\":"@ + json::json_quoted(outcome) + "}"@
            &&& after.turns == before.turns && after.segments == before.segments
        },
        (forall|k: int|
            0 <= k < before.turns@.len() ==> (#[trigger] before.turns@[k]).turn_id@ != turn_id)
            ==> after == before,
{
    if 0 <= i < before.turns@.len() && before.turns@[i].turn_id@ == turn_id {
        super::lemma_turn_at(before.turns@, turn_id, i);
    }
    let k = before.turn_at(turn_id);
    if k >= 0 {
        assert(super::is_turn_at(before.turns@, turn_id, k));
        let turn = before.turns@[k];
    }
}

/// Suspending a running turn writes down what it used, where there is an
/// account of it, and leaves it running and all else as it is.
pub proof fn a_suspended_turn_still_runs(
    before: ConversationDb,
    after: ConversationDb,
    turn_id: Seq<char>,
    tokens: TurnTokens,
    i: int,
)
    requires
        before.wf(),
        is_suspended(before, after, turn_id, tokens),
        0 <= i < before.turns@.len(),
        before.turns@[i].turn_id@ == turn_id,
        tokens.total <= i64::MAX && tokens.prompt <= i64::MAX && tokens.cache_read <= i64::MAX,
    ensures
        tokens.total == 0 && tokens.prompt == 0 ==> after == before,
        before.turns@[i].status !is Running ==> after == before,
        before.turns@[i].status is Running && (tokens.total > 0 || tokens.prompt > 0) ==> {
            let row = after.turns@[i];
            &&& row == (TurnRow {
                token_total: row.token_total,
                token_prompt: row.token_prompt,
                token_cache_read: row.token_cache_read,
                ..before.turns@[i]
            })
            &&& row.token_total == tokens.total && row.token_prompt == tokens.prompt
            &&& row.token_cache_read == tokens.cache_read
            &&& after.turns@.len() == before.turns@.len()
            &&& forall|j: int|
                0 <= j < before.turns@.len() && j != i ==> after.turns@[j]
                    == #[trigger] before.turns@[j]
        },
        after.segments == before.segments && after.events == before.events,
{
    super::lemma_turn_at(before.turns@, turn_id, i);
}

/// A session has a turn behind a number where one of its turns has a higher
/// number, and only there.
pub proof fn a_later_turn_follows(db: &ConversationDb, session: &str, seq: i64, follows: bool, i: int)
    requires
        call_ensures(ConversationDb::has_turn_after, (db, session, seq), follows),
        0 <= i < db.turns@.len(),
        db.turns@[i].session_id@ == session@,
        forall|k: int|
            i < k < db.turns@.len() ==> (#[trigger] db.turns@[k]).session_id@ != session@,
        super::turns_ordered(db.turns@),
    ensures
        follows == (db.turns@[i].seq > seq),
{
    if db.turns@[i].seq > seq {
        assert(is_followed(db.turns@, session@, seq));
    }
    if is_followed(db.turns@, session@, seq) {
        let k = choose|k: int|
            0 <= k < db.turns@.len() && (#[trigger] db.turns@[k]).session_id@ == session@
                && db.turns@[k].seq > seq;
        if k < i {
            assert(db.turns@[k].seq < db.turns@[i].seq);
        }
    }
}

} // verus!
