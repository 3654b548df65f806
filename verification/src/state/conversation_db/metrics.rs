//! Measures of turns: how fast they were written and how full the context was.

use vstd::prelude::*;

use crate::text::same_text;

use super::journal;
use super::rows::{copy_opt, TurnRow, TurnStatus};
use crate::table;
use super::{find_turn, ConversationDb};

verus! {

/// A turn after which the provider measured how full the context was.
#[derive(Debug)]
pub struct ContextAnchor {
    pub turn_id: String,
    pub provider_id: Option<String>,
    pub model: Option<String>,
    pub tokens: u64,
}

/// Whether a turn of a session is seen.
pub open spec fn is_seen(turn: TurnRow, session: Seq<char>) -> bool {
    turn.session_id@ == session && !turn.hidden
}

/// Whether a provider measured how full the context was after a turn.
pub open spec fn is_measured(turn: TurnRow) -> bool {
    !turn.token_usage_estimated && turn.token_context_end is Some && turn.token_context_end->Some_0
        > 0
}

/// The last of the first `n` turns that `chosen` chooses, and -1 where there
/// is none.
pub open spec fn last_chosen(
    turns: Seq<TurnRow>,
    chosen: spec_fn(TurnRow) -> bool,
    n: int,
) -> int
    decreases n,
{
    if n <= 0 {
        -1
    } else if chosen(turns[n - 1]) {
        n - 1
    } else {
        last_chosen(turns, chosen, n - 1)
    }
}

/// The last turn that `chosen` chooses.
fn find_last_chosen<F: Fn(&TurnRow) -> bool>(
    turns: &Vec<TurnRow>,
    test: F,
    Ghost(chosen): Ghost<spec_fn(TurnRow) -> bool>,
) -> (at: Option<usize>)
    requires
        forall|row: &TurnRow| test.requires((row,)),
        forall|row: &TurnRow, r: bool| test.ensures((row,), r) ==> r == chosen(*row),
    ensures
        match at {
            Some(i) => i < turns.len() && last_chosen(turns@, chosen, turns@.len() as int) == i
                && chosen(turns@[i as int]),
            None => last_chosen(turns@, chosen, turns@.len() as int) == -1,
        },
{
    let mut n: usize = turns.len();
    while n > 0
        invariant
            n <= turns@.len(),
            forall|row: &TurnRow| test.requires((row,)),
            forall|row: &TurnRow, r: bool| test.ensures((row,), r) ==> r == chosen(*row),
            last_chosen(turns@, chosen, turns@.len() as int) == last_chosen(
                turns@,
                chosen,
                n as int,
            ),
        decreases n,
    {
        let at: usize = n - 1;
        if test(&turns[at]) {
            return Some(at);
        }
        n -= 1;
    }
    None
}

/// The anchor that a turn is.
pub open spec fn anchor_of(turn: TurnRow) -> ContextAnchor {
    ContextAnchor {
        turn_id: turn.turn_id,
        provider_id: turn.assistant_provider_id,
        model: turn.assistant_model,
        tokens: turn.token_context_end->Some_0 as u64,
    }
}

/// Whether a turn was measured, by what it says.
fn measured_tokens(turn: &TurnRow) -> (tokens: Option<u64>)
    ensures
        tokens == (if is_measured(*turn) {
            Some(turn.token_context_end->Some_0 as u64)
        } else {
            None
        }),
{
    if turn.token_usage_estimated {
        return None;
    }
    match turn.token_context_end {
        Some(tokens) => if tokens > 0 {
            Some(tokens as u64)
        } else {
            None
        },
        None => None,
    }
}

/// The anchor that a measured turn is.
fn make_anchor(turn: &TurnRow, tokens: u64) -> (anchor: ContextAnchor)
    requires
        is_measured(*turn),
        tokens == turn.token_context_end->Some_0,
    ensures
        anchor == anchor_of(*turn),
{
    ContextAnchor {
        turn_id: turn.turn_id.clone(),
        provider_id: copy_opt(&turn.assistant_provider_id),
        model: copy_opt(&turn.assistant_model),
        tokens,
    }
}

/// Whether a sample of how fast a turn was written is there.
pub open spec fn has_sample(turn: TurnRow, session: Seq<char>) -> bool {
    turn.session_id@ == session && turn.generation_tokens > 0 && turn.generation_ms > 0
}

/// Whether a session was summarized after number `seq`.
pub open spec fn compacted_since(turns: Seq<TurnRow>, session: Seq<char>, seq: i64) -> bool {
    exists|i: int|
        0 <= i < turns.len() && is_seen(#[trigger] turns[i], session) && turns[i].is_summary
            && turns[i].seq > seq
}

/// Whether `after` is `before` with what a turn generated, and in how many
/// milliseconds.
pub open spec fn is_timed(
    before: ConversationDb,
    after: ConversationDb,
    turn_id: Seq<char>,
    tokens: u64,
    millis: u64,
) -> bool {
    journal::turn_changed(
        before,
        after,
        turn_id,
        |turn: TurnRow|
            TurnRow { generation_tokens: tokens as i64, generation_ms: millis as i64, ..turn },
    )
}

/// Whether `after` is `before` with the tokens that were in the context when a
/// turn ended.
pub open spec fn has_context_end(
    before: ConversationDb,
    after: ConversationDb,
    turn_id: Seq<char>,
    tokens: Option<u64>,
) -> bool {
    journal::turn_changed(
        before,
        after,
        turn_id,
        |turn: TurnRow|
            TurnRow {
                token_context_end: match tokens {
                    Some(n) => Some(n as i64),
                    None => None,
                },
                ..turn
            },
    )
}

impl ConversationDb {
    /// Writes down how fast a turn was written.
    pub fn set_turn_generation(&mut self, turn_id: &str, tokens: u64, millis: u64)
        requires
            old(self).wf(),
        ensures
            final(self).wf(),
            is_timed(*old(self), *final(self), turn_id@, tokens, millis),
    {
        if let Some(at) = find_turn(&self.turns, turn_id) {
            let ghost before = self.turns@;
            let row = &mut self.turns[at];
            row.generation_tokens = tokens as i64;
            row.generation_ms = millis as i64;
            proof {
                assert(self.turns@ =~= before.update(at as int, self.turns@[at as int]));
                super::lemma_turn_updated(before, at as int, self.turns@[at as int]);
            }
        }
    }

    /// How fast the turns of a session were written: tokens and milliseconds
    /// of each that was measured.
    pub fn load_turn_generation(&self, session_id: &str) -> (samples: Vec<(String, (u64, u64))>)
        ensures
            samples@ == self.turns@.filter(
                |turn: TurnRow| has_sample(turn, session_id@),
            ).map_values(
                |turn: TurnRow|
                    (turn.turn_id, (turn.generation_tokens as u64, turn.generation_ms as u64)),
            ),
    {
        let turns = &self.turns;
        let ghost chosen = |turn: TurnRow| has_sample(turn, session_id@);
        let ghost sample = |turn: TurnRow|
            (turn.turn_id, (turn.generation_tokens as u64, turn.generation_ms as u64));
        let mut out: Vec<(String, (u64, u64))> = Vec::new();
        let mut i: usize = 0;
        proof {
            reveal(Seq::filter);
            assert(turns@.take(0).filter(chosen) =~= Seq::empty());
        }
        while i < turns.len()
            invariant
                i <= turns@.len(),
                chosen == (|turn: TurnRow| has_sample(turn, session_id@)),
                sample == (|turn: TurnRow|
                    (turn.turn_id, (turn.generation_tokens as u64, turn.generation_ms as u64))),
                out@ =~= turns@.take(i as int).filter(chosen).map_values(sample),
            decreases turns@.len() - i,
        {
            proof {
                table::lemma_filter_step(turns@, chosen, i as int);
            }
            let turn = &turns[i];
            if turn.generation_tokens > 0 && turn.generation_ms > 0 && same_text(
                turn.session_id.as_str(),
                session_id,
            ) {
                out.push(
                    (
                        turn.turn_id.clone(),
                        (turn.generation_tokens as u64, turn.generation_ms as u64),
                    ),
                );
            }
            i += 1;
        }
        assert(turns@.take(turns@.len() as int) =~= turns@);
        out
    }

    /// Writes down how full the context was after a turn's last request.
    pub fn set_turn_context_end(&mut self, turn_id: &str, tokens: Option<u64>)
        requires
            old(self).wf(),
        ensures
            final(self).wf(),
            has_context_end(*old(self), *final(self), turn_id@, tokens),
    {
        if let Some(at) = find_turn(&self.turns, turn_id) {
            let ghost before = self.turns@;
            let row = &mut self.turns[at];
            row.token_context_end = match tokens {
                Some(n) => Some(n as i64),
                None => None,
            };
            proof {
                assert(self.turns@ =~= before.update(at as int, self.turns@[at as int]));
                super::lemma_turn_updated(before, at as int, self.turns@[at as int]);
            }
        }
    }

    /// How full the context was after the last request that a provider
    /// measured, that of a running turn too.
    pub fn latest_context_end_tokens(&self, session_id: &str) -> (tokens: Option<u64>)
        ensures
            ({
                let at = last_chosen(
                    self.turns@,
                    |turn: TurnRow|
                        is_seen(turn, session_id@) && !turn.is_summary && is_measured(turn),
                    self.turns@.len() as int,
                );
                tokens == (if at >= 0 {
                    Some(self.turns@[at].token_context_end->Some_0 as u64)
                } else {
                    None
                })
            }),
    {
        let test = |turn: &TurnRow| -> (r: bool)
            ensures
                r == (is_seen(*turn, session_id@) && !turn.is_summary && is_measured(*turn)),
        {
            !turn.hidden && !turn.is_summary && same_text(turn.session_id.as_str(), session_id)
                && measured_tokens(turn).is_some()
        };
        match find_last_chosen(
            &self.turns,
            test,
            Ghost(
                |turn: TurnRow|
                    is_seen(turn, session_id@) && !turn.is_summary && is_measured(turn),
            ),
        ) {
            Some(at) => measured_tokens(&self.turns[at]),
            None => None,
        }
    }

    /// The last completed turn of a session after which a provider measured
    /// how full the context was, with its number. None where the session was
    /// summarized since, for then the measure is void.
    pub fn load_last_measured_anchor(&self, session_id: &str) -> (anchor: Option<
        (ContextAnchor, i64),
    >)
        ensures
            ({
                let at = last_chosen(
                    self.turns@,
                    |turn: TurnRow|
                        is_seen(turn, session_id@) && !turn.is_summary && turn.status
                            == TurnStatus::Completed && is_measured(turn),
                    self.turns@.len() as int,
                );
                let turn = self.turns@[at];
                anchor == (if at >= 0 && !compacted_since(self.turns@, session_id@, turn.seq) {
                    Some((anchor_of(turn), turn.seq))
                } else {
                    None
                })
            }),
    {
        let test = |turn: &TurnRow| -> (r: bool)
            ensures
                r == (is_seen(*turn, session_id@) && !turn.is_summary && turn.status
                    == TurnStatus::Completed && is_measured(*turn)),
        {
            !turn.hidden && !turn.is_summary && turn.status == TurnStatus::Completed && same_text(
                turn.session_id.as_str(),
                session_id,
            ) && measured_tokens(turn).is_some()
        };
        let found = find_last_chosen(
            &self.turns,
            test,
            Ghost(
                |turn: TurnRow|
                    is_seen(turn, session_id@) && !turn.is_summary && turn.status
                        == TurnStatus::Completed && is_measured(turn),
            ),
        );
        let at: usize = match found {
            Some(at) => at,
            None => return None,
        };
        let turns = &self.turns;
        let seq: i64 = turns[at].seq;
        if is_compacted_since(turns, session_id, seq) {
            return None;
        }
        match measured_tokens(&turns[at]) {
            Some(tokens) => Some((make_anchor(&turns[at], tokens), seq)),
            None => None,
        }
    }

    /// The last turn of a session, where it was completed, is no summary and
    /// a provider measured how full the context was after it.
    pub fn load_context_anchor(&self, session_id: &str) -> (anchor: Option<ContextAnchor>)
        ensures
            ({
                let at = last_chosen(
                    self.turns@,
                    |turn: TurnRow| is_seen(turn, session_id@),
                    self.turns@.len() as int,
                );
                let turn = self.turns@[at];
                anchor == (if at >= 0 && !turn.is_summary && turn.status == TurnStatus::Completed
                    && is_measured(turn) {
                    Some(anchor_of(turn))
                } else {
                    None
                })
            }),
    {
        let test = |turn: &TurnRow| -> (r: bool)
            ensures
                r == is_seen(*turn, session_id@),
        { !turn.hidden && same_text(turn.session_id.as_str(), session_id) };
        let found = find_last_chosen(
            &self.turns,
            test,
            Ghost(|turn: TurnRow| is_seen(turn, session_id@)),
        );
        let turn = match found {
            Some(at) => &self.turns[at],
            None => return None,
        };
        if turn.is_summary || turn.status != TurnStatus::Completed {
            return None;
        }
        match measured_tokens(turn) {
            Some(tokens) => Some(make_anchor(turn, tokens)),
            None => None,
        }
    }
}

/// Whether a session was summarized after number `seq`.
fn is_compacted_since(turns: &Vec<TurnRow>, session_id: &str, seq: i64) -> (r: bool)
    ensures
        r == compacted_since(turns@, session_id@, seq),
{
    let mut i: usize = 0;
    while i < turns.len()
        invariant
            i <= turns@.len(),
            forall|k: int|
                0 <= k < i ==> !(is_seen(#[trigger] turns@[k], session_id@) && turns@[k].is_summary
                    && turns@[k].seq > seq),
        decreases turns@.len() - i,
    {
        if !turns[i].hidden && turns[i].is_summary && turns[i].seq > seq && same_text(
            turns[i].session_id.as_str(),
            session_id,
        ) {
            assert(is_seen(turns@[i as int], session_id@));
            return true;
        }
        i += 1;
    }
    false
}

/// Where the last turn of a session anchors its context, it is the last one
/// that was measured.
pub proof fn the_anchor_is_the_last_measured_one(turns: Seq<TurnRow>, session: Seq<char>)
    requires
        super::turns_ordered(turns),
        ({
            let at = last_chosen(
                turns,
                |turn: TurnRow| is_seen(turn, session),
                turns.len() as int,
            );
            at >= 0 && !turns[at].is_summary && turns[at].status == TurnStatus::Completed
                && is_measured(turns[at])
        }),
    ensures
        ({
            let seen = |turn: TurnRow| is_seen(turn, session);
            let measured = |turn: TurnRow|
                is_seen(turn, session) && !turn.is_summary && turn.status == TurnStatus::Completed
                    && is_measured(turn);
            let at = last_chosen(turns, seen, turns.len() as int);
            &&& last_chosen(turns, measured, turns.len() as int) == at
            &&& !compacted_since(turns, session, turns[at].seq)
        }),
{
    let seen = |turn: TurnRow| is_seen(turn, session);
    let measured = |turn: TurnRow|
        is_seen(turn, session) && !turn.is_summary && turn.status == TurnStatus::Completed
            && is_measured(turn);
    lemma_last_chosen(turns, seen, turns.len() as int);
    lemma_last_chosen(turns, measured, turns.len() as int);
    let at = last_chosen(turns, seen, turns.len() as int);
    let last = last_chosen(turns, measured, turns.len() as int);
    assert(measured(turns[at]));
    assert(last >= at);
    if last > at {
        assert(seen(turns[last]));
    }
    if compacted_since(turns, session, turns[at].seq) {
        let i = choose|i: int|
            0 <= i < turns.len() && is_seen(#[trigger] turns[i], session) && turns[i].is_summary
                && turns[i].seq > turns[at].seq;
        assert(seen(turns[i]));
        assert(i <= at);
        if i < at {
            assert(turns[i].session_id@ == turns[at].session_id@);
        }
    }
}

proof fn lemma_last_chosen(turns: Seq<TurnRow>, chosen: spec_fn(TurnRow) -> bool, n: int)
    requires
        0 <= n <= turns.len(),
    ensures
        ({
            let at = last_chosen(turns, chosen, n);
            &&& -1 <= at < n
            &&& at >= 0 ==> chosen(turns[at])
            &&& forall|i: int| at < i < n ==> !chosen(#[trigger] turns[i])
        }),
    decreases n,
{
    if n > 0 && !chosen(turns[n - 1]) {
        lemma_last_chosen(turns, chosen, n - 1);
    }
}

// ---------------------------------------------------------------------------
// Laws
// ---------------------------------------------------------------------------

/// Whether a provider measured how full the context was after a turn that is
/// seen and is no summary.
pub open spec fn tells_fullness(turn: TurnRow, session: Seq<char>) -> bool {
    &&& turn.session_id@ == session && !turn.hidden && !turn.is_summary
    &&& !turn.token_usage_estimated
    &&& turn.token_context_end matches Some(tokens) && tokens > 0
}

/// How full the context is told to be is what the last turn that was measured
/// says, running or not. Nothing is told only where none was.
pub proof fn the_last_measure_counts(
    db: &ConversationDb,
    session: &str,
    tokens: Option<u64>,
    i: int,
)
    requires
        call_ensures(ConversationDb::latest_context_end_tokens, (db, session), tokens),
    ensures
        (forall|k: int|
            0 <= k < db.turns@.len() ==> !tells_fullness(#[trigger] db.turns@[k], session@))
            ==> tokens is None,
        0 <= i < db.turns@.len() && tells_fullness(db.turns@[i], session@) && (forall|k: int|
            i < k < db.turns@.len() ==> !tells_fullness(#[trigger] db.turns@[k], session@)) ==> (
        tokens matches Some(told) && Some(told as int) == Some(
            db.turns@[i].token_context_end->Some_0 as int,
        )),
{
    let wanted = |turn: TurnRow| tells_fullness(turn, session@);
    lemma_last_like(
        db.turns@,
        |turn: TurnRow| is_seen(turn, session@) && !turn.is_summary && is_measured(turn),
        wanted,
        db.turns@.len() as int,
        i,
    );
    assert forall|k: int| 0 <= k < db.turns@.len() implies wanted(#[trigger] db.turns@[k])
        == tells_fullness(db.turns@[k], session@) by {}
}

proof fn lemma_last_like(
    turns: Seq<TurnRow>,
    chosen: spec_fn(TurnRow) -> bool,
    wanted: spec_fn(TurnRow) -> bool,
    n: int,
    i: int,
)
    requires
        0 <= n <= turns.len(),
        forall|turn: TurnRow| #[trigger] chosen(turn) == wanted(turn),
    ensures
        (forall|k: int| 0 <= k < n ==> !wanted(#[trigger] turns[k])) ==> last_chosen(
            turns,
            chosen,
            n,
        ) < 0,
        0 <= i < n && wanted(turns[i]) && (forall|k: int| i < k < n ==> !wanted(#[trigger] turns[k]))
            ==> last_chosen(turns, chosen, n) == i,
    decreases n,
{
    if n > 0 {
        lemma_last_like(turns, chosen, wanted, n - 1, i);
        assert(chosen(turns[n - 1]) == wanted(turns[n - 1]));
    }
}

/// The last completed turn that was measured anchors the context, unless the
/// session was summarized behind it.
pub proof fn the_last_completed_measure_anchors(
    db: &ConversationDb,
    session: &str,
    anchor: Option<(ContextAnchor, i64)>,
    i: int,
)
    requires
        call_ensures(ConversationDb::load_last_measured_anchor, (db, session), anchor),
        0 <= i < db.turns@.len(),
        tells_fullness(db.turns@[i], session@) && db.turns@[i].status is Completed,
        forall|k: int|
            i < k < db.turns@.len() ==> !(tells_fullness(#[trigger] db.turns@[k], session@)
                && db.turns@[k].status is Completed),
    ensures
        anchor is None <==> exists|k: int|
            0 <= k < db.turns@.len() && (#[trigger] db.turns@[k]).session_id@ == session@
                && !db.turns@[k].hidden && db.turns@[k].is_summary && db.turns@[k].seq
                > db.turns@[i].seq,
        anchor matches Some((anchor, seq)) ==> {
            &&& seq == db.turns@[i].seq
            &&& anchor.turn_id == db.turns@[i].turn_id
            &&& anchor.provider_id == db.turns@[i].assistant_provider_id && anchor.model
                == db.turns@[i].assistant_model
            &&& anchor.tokens == db.turns@[i].token_context_end->Some_0
        },
{
    let wanted = |turn: TurnRow| tells_fullness(turn, session@) && turn.status is Completed;
    lemma_last_like(
        db.turns@,
        |turn: TurnRow|
            is_seen(turn, session@) && !turn.is_summary && turn.status == TurnStatus::Completed
                && is_measured(turn),
        wanted,
        db.turns@.len() as int,
        i,
    );
    assert forall|k: int| i < k < db.turns@.len() implies !wanted(#[trigger] db.turns@[k]) by {}
    assert(wanted(db.turns@[i]));
    let seq = db.turns@[i].seq;
    if compacted_since(db.turns@, session@, seq) {
        let k = choose|k: int|
            0 <= k < db.turns@.len() && is_seen(#[trigger] db.turns@[k], session@)
                && db.turns@[k].is_summary && db.turns@[k].seq > seq;
        let turn = db.turns@[k];
        assert(turn.session_id@ == session@);
    }
    if exists|k: int|
        0 <= k < db.turns@.len() && (#[trigger] db.turns@[k]).session_id@ == session@
            && !db.turns@[k].hidden && db.turns@[k].is_summary && db.turns@[k].seq > seq {
        let k = choose|k: int|
            0 <= k < db.turns@.len() && (#[trigger] db.turns@[k]).session_id@ == session@
                && !db.turns@[k].hidden && db.turns@[k].is_summary && db.turns@[k].seq > seq;
        assert(is_seen(db.turns@[k], session@));
    }
}

/// The last turn that is seen anchors the context exactly where it was
/// completed and measured.
pub proof fn the_last_turn_anchors_where_measured(
    db: &ConversationDb,
    session: &str,
    anchor: Option<ContextAnchor>,
    i: int,
)
    requires
        call_ensures(ConversationDb::load_context_anchor, (db, session), anchor),
        0 <= i < db.turns@.len(),
        db.turns@[i].session_id@ == session@ && !db.turns@[i].hidden,
        forall|k: int|
            i < k < db.turns@.len() ==> (#[trigger] db.turns@[k]).session_id@ != session@
                || db.turns@[k].hidden,
    ensures
        anchor is Some <==> tells_fullness(db.turns@[i], session@)
            && db.turns@[i].status is Completed,
        anchor matches Some(anchor) ==> anchor.turn_id == db.turns@[i].turn_id
            && anchor.provider_id == db.turns@[i].assistant_provider_id && anchor.model
            == db.turns@[i].assistant_model && anchor.tokens
            == db.turns@[i].token_context_end->Some_0,
{
    let wanted = |turn: TurnRow| turn.session_id@ == session@ && !turn.hidden;
    lemma_last_like(
        db.turns@,
        |turn: TurnRow| is_seen(turn, session@),
        wanted,
        db.turns@.len() as int,
        i,
    );
    assert forall|k: int| i < k < db.turns@.len() implies !wanted(#[trigger] db.turns@[k]) by {}
    assert(wanted(db.turns@[i]));
}

/// Every turn of a session that was timed has a sample, in its place, with its
/// tokens and its milliseconds. No other has.
pub proof fn every_timed_turn_has_a_sample(
    db: &ConversationDb,
    session: &str,
    samples: Vec<(String, (u64, u64))>,
    i: int,
)
    requires
        call_ensures(ConversationDb::load_turn_generation, (db, session), samples),
        0 <= i < db.turns@.len(),
    ensures
        ({
            let turn = db.turns@[i];
            let timed = |turn: TurnRow|
                turn.session_id@ == session@ && turn.generation_tokens > 0 && turn.generation_ms
                    > 0;
            &&& samples@.len() == table::count(db.turns@, timed, db.turns@.len() as int)
            &&& timed(turn) ==> {
                let sample = samples@[table::count(db.turns@, timed, i)];
                &&& sample.0 == turn.turn_id
                &&& sample.1.0 == turn.generation_tokens && sample.1.1 == turn.generation_ms
            }
        }),
{
    let timed = |turn: TurnRow|
        turn.session_id@ == session@ && turn.generation_tokens > 0 && turn.generation_ms > 0;
    let chosen = |turn: TurnRow| has_sample(turn, session@);
    table::lemma_same_filter(db.turns@, chosen, timed);
    table::lemma_count(db.turns@, timed, db.turns@.len() as int);
    if timed(db.turns@[i]) {
        table::lemma_chosen_place(db.turns@, timed, i);
    }
}

/// What a turn generated and how long it took is written to the turn alone.
pub proof fn what_was_timed_is_written(
    before: ConversationDb,
    after: ConversationDb,
    turn_id: Seq<char>,
    tokens: u64,
    millis: u64,
    i: int,
)
    requires
        before.wf(),
        is_timed(before, after, turn_id, tokens, millis),
        0 <= i < before.turns@.len(),
        before.turns@[i].turn_id@ == turn_id,
        tokens <= i64::MAX,
        millis <= i64::MAX,
    ensures
        ({
            let row = after.turns@[i];
            &&& row.generation_tokens == tokens && row.generation_ms == millis
            &&& row == (TurnRow {
                generation_tokens: row.generation_tokens,
                generation_ms: row.generation_ms,
                ..before.turns@[i]
            })
            &&& after.turns@ == before.turns@.update(i, row)
        }),
{
    super::lemma_turn_at(before.turns@, turn_id, i);
}

/// The tokens in the context at the end of a turn are written to the turn
/// alone.
pub proof fn the_end_of_the_context_is_written(
    before: ConversationDb,
    after: ConversationDb,
    turn_id: Seq<char>,
    tokens: Option<u64>,
    i: int,
)
    requires
        before.wf(),
        has_context_end(before, after, turn_id, tokens),
        0 <= i < before.turns@.len(),
        before.turns@[i].turn_id@ == turn_id,
        tokens matches Some(n) ==> n <= i64::MAX,
    ensures
        ({
            let row = after.turns@[i];
            &&& match tokens {
                Some(n) => row.token_context_end matches Some(written) && written == n,
                None => row.token_context_end is None,
            }
            &&& row == (TurnRow {
                token_context_end: row.token_context_end,
                ..before.turns@[i]
            })
            &&& after.turns@ == before.turns@.update(i, row)
        }),
{
    super::lemma_turn_at(before.turns@, turn_id, i);
}

} // verus!
