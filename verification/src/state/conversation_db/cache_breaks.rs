//! Broken caches, written down for the session they happened in. They are
//! counted over a session and all subagents under it.

use vstd::prelude::*;

use crate::llm::cache_break::{CacheBreak, CacheBreakCause};
use crate::state::usage::db::{self as ledger, keep};
use crate::text::same_text;

use super::rows::{copy_opt, DbError, SessionKind, SessionRow, Stamp};
use crate::table;
use super::turns::{self, session_exists};
use super::ConversationDb;

verus! {

#[derive(Debug)]
pub struct CacheBreakRow {
    pub session_id: String,
    pub turn_id: Option<String>,
    /// RFC 3339, UTC.
    pub at: String,
    pub lost_tokens: u64,
    /// None where the cause is of a kind that is not known here.
    pub cause: Option<CacheBreakCause>,
    pub idle_secs: u64,
}

/// A broken cache as it is listed.
#[derive(Debug)]
pub struct CacheBreakRecord {
    pub session_id: String,
    /// RFC 3339, UTC.
    pub at: String,
    pub lost_tokens: u64,
    pub cause: CacheBreakCause,
    pub idle_secs: u64,
}

/// Where a session stands, and -1 where it does not, from row `from` on.
pub open spec fn session_at(sessions: Seq<SessionRow>, session: Seq<char>, from: int) -> int
    decreases sessions.len() - from,
{
    if from >= sessions.len() {
        -1
    } else if sessions[from].session_id@ == session {
        from
    } else {
        session_at(sessions, session, from + 1)
    }
}

/// Whether a session is `root`, or a subagent at most `steps` below it.
pub open spec fn in_tree(
    sessions: Seq<SessionRow>,
    root: Seq<char>,
    session: Seq<char>,
    steps: int,
) -> bool
    decreases steps,
{
    if session == root {
        true
    } else if steps <= 0 {
        false
    } else {
        let at = session_at(sessions, session, 0);
        at >= 0 && sessions[at].kind == SessionKind::Subagent && match sessions[at].parent_session_id {
            Some(parent) => in_tree(sessions, root, parent@, steps - 1),
            None => false,
        }
    }
}

/// Whether a session is `root` or a subagent under it. There is no longer way
/// up than there are sessions.
pub open spec fn under(sessions: Seq<SessionRow>, root: Seq<char>, session: Seq<char>) -> bool {
    in_tree(sessions, root, session, sessions.len() as int)
}

/// Where a session stands.
fn find_session(sessions: &Vec<SessionRow>, session: &str) -> (at: Option<usize>)
    ensures
        match at {
            Some(i) => i < sessions.len() && session_at(sessions@, session@, 0) == i,
            None => session_at(sessions@, session@, 0) == -1,
        },
{
    let mut i: usize = 0;
    while i < sessions.len()
        invariant
            i <= sessions@.len(),
            session_at(sessions@, session@, 0) == session_at(sessions@, session@, i as int),
        decreases sessions@.len() - i,
    {
        if same_text(sessions[i].session_id.as_str(), session) {
            return Some(i);
        }
        i += 1;
    }
    None
}

/// Whether a session is `root`, or a subagent at most `steps` below it.
pub fn is_under(sessions: &Vec<SessionRow>, root: &str, session: &str, steps: usize) -> (r: bool)
    ensures
        r == in_tree(sessions@, root@, session@, steps as int),
    decreases steps,
{
    if same_text(session, root) {
        return true;
    }
    if steps == 0 {
        return false;
    }
    match find_session(sessions, session) {
        Some(at) => {
            if sessions[at].kind != SessionKind::Subagent {
                return false;
            }
            match &sessions[at].parent_session_id {
                Some(parent) => is_under(sessions, root, parent.as_str(), steps - 1),
                None => false,
            }
        },
        None => false,
    }
}

/// The breaks of a session and the subagents under it.
pub open spec fn breaks_under(db: ConversationDb, root: Seq<char>) -> Seq<CacheBreakRow> {
    db.cache_breaks@.filter(|row: CacheBreakRow| under(db.sessions@, root, row.session_id@))
}

/// The breaks as they are listed. One of a cause that is not known is passed
/// over.
pub open spec fn listed_breaks(rows: Seq<CacheBreakRow>) -> Seq<CacheBreakRecord>
    decreases rows.len(),
{
    if rows.len() == 0 {
        Seq::empty()
    } else {
        let rest = listed_breaks(rows.drop_last());
        let row = rows.last();
        match row.cause {
            Some(cause) => rest.push(
                CacheBreakRecord {
                    session_id: row.session_id,
                    at: row.at,
                    lost_tokens: row.lost_tokens,
                    cause,
                    idle_secs: row.idle_secs,
                },
            ),
            None => rest,
        }
    }
}

/// The last `limit` rows, the latest first.
pub open spec fn latest(rows: Seq<CacheBreakRow>, limit: int) -> Seq<CacheBreakRow> {
    let back = rows.reverse();
    if back.len() > limit {
        back.take(limit)
    } else {
        back
    }
}

/// What writing a broken cache down comes to.
pub open spec fn is_recorded(
    before: ConversationDb,
    after: ConversationDb,
    entry: CacheBreak,
    now: String,
    done: Result<(), DbError>,
) -> bool {
    let known = turns::has_session(before.sessions@, entry.session_id@);
    match done {
        Ok(()) => {
            &&& known
            &&& after.cache_breaks@ == before.cache_breaks@.push(
                CacheBreakRow {
                    session_id: entry.session_id,
                    turn_id: entry.turn_id,
                    at: now,
                    lost_tokens: ledger::kept(entry.lost_tokens),
                    cause: Some(entry.cause),
                    idle_secs: ledger::kept(entry.idle_secs),
                },
            )
            &&& after == (ConversationDb { cache_breaks: after.cache_breaks, ..before })
        },
        Err(e) => e == DbError::UnknownSession && !known && after == before,
    }
}

impl ConversationDb {
    /// Writes a broken cache down.
    pub fn record_cache_break(&mut self, entry: &CacheBreak, now: &Stamp) -> (done: Result<
        (),
        DbError,
    >)
        requires
            old(self).wf(),
        ensures
            final(self).wf(),
            is_recorded(*old(self), *final(self), *entry, now.text, done),
    {
        if !session_exists(&self.sessions, entry.session_id.as_str()) {
            return Err(DbError::UnknownSession);
        }
        self.cache_breaks.push(
            CacheBreakRow {
                session_id: entry.session_id.clone(),
                turn_id: copy_opt(&entry.turn_id),
                at: now.text.clone(),
                lost_tokens: keep(entry.lost_tokens),
                cause: Some(entry.cause.copy()),
                idle_secs: keep(entry.idle_secs),
            },
        );
        Ok(())
    }

    /// How many breaks there were in a session and the subagents under it.
    pub fn cache_break_count(&self, root: &str) -> (count: u64)
        ensures
            count == breaks_under(*self, root@).len(),
    {
        let rows = &self.cache_breaks;
        let ghost own = |row: CacheBreakRow| under(self.sessions@, root@, row.session_id@);
        let mut count: u64 = 0;
        let mut i: usize = 0;
        proof {
            reveal(Seq::filter);
            assert(rows@.take(0).filter(own) =~= Seq::empty());
        }
        while i < rows.len()
            invariant
                i <= rows@.len(),
                own == (|row: CacheBreakRow| under(self.sessions@, root@, row.session_id@)),
                count == rows@.take(i as int).filter(own).len(),
                count <= i,
            decreases rows@.len() - i,
        {
            proof {
                table::lemma_filter_step(rows@, own, i as int);
            }
            if is_under(
                &self.sessions,
                root,
                rows[i].session_id.as_str(),
                self.sessions.len(),
            ) {
                count += 1;
            }
            i += 1;
        }
        assert(rows@.take(rows@.len() as int) =~= rows@);
        count
    }

    /// The last `limit` breaks in a session and the subagents under it, the
    /// latest first. One of a cause that is not known is passed over.
    pub fn recent_cache_breaks(&self, root: &str, limit: usize) -> (records: Vec<CacheBreakRecord>)
        ensures
            records@ == listed_breaks(latest(breaks_under(*self, root@), limit as int)),
    {
        let rows = &self.cache_breaks;
        let ghost own = |row: CacheBreakRow| under(self.sessions@, root@, row.session_id@);
        let ghost all = rows@.filter(own);
        let mut records: Vec<CacheBreakRecord> = Vec::new();
        let mut taken: usize = 0;
        let mut n: usize = rows.len();
        proof {
            assert(rows@.take(n as int) =~= rows@);
            assert(all.reverse().take(0) =~= Seq::empty());
        }
        while n > 0 && taken < limit
            invariant
                n <= rows@.len(),
                *rows == self.cache_breaks,
                own == (|row: CacheBreakRow| under(self.sessions@, root@, row.session_id@)),
                all == rows@.filter(own),
                taken <= limit,
                taken + n <= rows@.len(),
                rows@.take(n as int).filter(own).len() + taken == all.len(),
                rows@.take(n as int).filter(own) == all.take(all.len() - taken),
                records@ == listed_breaks(all.reverse().take(taken as int)),
            decreases n,
        {
            let row = &rows[n - 1];
            proof {
                table::lemma_filter_step(rows@, own, n - 1);
                let shorter = rows@.take(n - 1).filter(own);
                assert(shorter.len() <= all.len());
                if own(*row) {
                    assert(shorter =~= all.take(all.len() - taken - 1));
                    let longer = rows@.take(n as int).filter(own);
                    assert(longer == shorter.push(*row));
                    assert(longer.last() == all.take(all.len() - taken)[all.len() - taken - 1]);
                    assert(all[all.len() - taken - 1] == *row);
                    assert(all.reverse().take(taken + 1).drop_last() =~= all.reverse().take(
                        taken as int,
                    ));
                    assert(all.reverse().take(taken + 1).last() == *row);
                }
            }
            if is_under(&self.sessions, root, row.session_id.as_str(), self.sessions.len()) {
                if let Some(cause) = &row.cause {
                    records.push(
                        CacheBreakRecord {
                            session_id: row.session_id.clone(),
                            at: row.at.clone(),
                            lost_tokens: row.lost_tokens,
                            cause: cause.copy(),
                            idle_secs: row.idle_secs,
                        },
                    );
                }
                taken += 1;
            }
            n -= 1;
        }
        proof {
            reveal(Seq::filter);
            assert(rows@.take(0).filter(own) =~= Seq::empty());
            assert(all.reverse().take(taken as int) =~= latest(all, limit as int));
            assert(all =~= breaks_under(*self, root@));
        }
        records
    }
}

// ---------------------------------------------------------------------------
// Laws
// ---------------------------------------------------------------------------

/// The breaks of a subagent count for the session above it.
pub proof fn subagents_count_for_their_parent(
    sessions: Seq<SessionRow>,
    root: Seq<char>,
    child: Seq<char>,
)
    requires
        sessions.len() > 0,
        session_at(sessions, child, 0) >= 0,
        sessions[session_at(sessions, child, 0)].kind == SessionKind::Subagent,
        sessions[session_at(sessions, child, 0)].parent_session_id matches Some(parent)
            && in_tree(sessions, root, parent@, sessions.len() - 1),
    ensures
        under(sessions, root, child),
        under(sessions, root, root),
{
}

/// A session counts for `root` only where it is `root`, or a subagent whose
/// parent counts for it.
pub proof fn only_subagents_count(
    sessions: Seq<SessionRow>,
    root: Seq<char>,
    session: Seq<char>,
    steps: int,
)
    requires
        in_tree(sessions, root, session, steps),
        session != root,
    ensures
        exists|s: int|
            0 <= s < sessions.len() && (#[trigger] sessions[s]).session_id@ == session
                && sessions[s].kind is Subagent && (sessions[s].parent_session_id matches Some(
                parent,
            ) && in_tree(sessions, root, parent@, steps - 1)),
{
    lemma_session_at(sessions, session, 0);
    let s = session_at(sessions, session, 0);
    assert(sessions[s].session_id@ == session);
}

/// A session is found where it first stands.
proof fn lemma_session_at(sessions: Seq<SessionRow>, session: Seq<char>, from: int)
    requires
        0 <= from,
    ensures
        session_at(sessions, session, from) >= 0 ==> from <= session_at(sessions, session, from)
            < sessions.len() && sessions[session_at(sessions, session, from)].session_id@
            == session,
        (exists|s: int|
            from <= s < sessions.len() && (#[trigger] sessions[s]).session_id@ == session)
            ==> session_at(sessions, session, from) >= 0,
    decreases sessions.len() - from,
{
    if from < sessions.len() {
        lemma_session_at(sessions, session, from + 1);
        let here = sessions[from];
    }
}

/// A session without a parent counts for no other, and neither does one that is
/// no subagent.
pub proof fn other_sessions_do_not_count(
    sessions: Seq<SessionRow>,
    root: Seq<char>,
    session: Seq<char>,
    s: int,
)
    requires
        session != root,
        0 <= s < sessions.len(),
        sessions[s].session_id@ == session,
        forall|k: int|
            0 <= k < sessions.len() && k != s ==> (#[trigger] sessions[k]).session_id@ != session,
        sessions[s].kind !is Subagent || sessions[s].parent_session_id is None,
    ensures
        !under(sessions, root, session),
{
    if under(sessions, root, session) {
        only_subagents_count(sessions, root, session, sessions.len() as int);
    }
}

/// Every break of a session and of those under it is counted, and no other.
/// Where all causes are known, those that are listed are the last ones, the
/// latest first, each as it was written down.
pub proof fn every_break_is_counted_and_listed(
    db: &ConversationDb,
    root: &str,
    limit: usize,
    count: u64,
    records: Vec<CacheBreakRecord>,
    i: int,
)
    requires
        call_ensures(ConversationDb::cache_break_count, (db, root), count),
        call_ensures(ConversationDb::recent_cache_breaks, (db, root, limit), records),
        forall|k: int| 0 <= k < db.cache_breaks@.len() ==> (#[trigger] db.cache_breaks@[k]).cause is Some,
        0 <= i < db.cache_breaks@.len(),
    ensures
        ({
            let chosen = |row: CacheBreakRow| under(db.sessions@, root@, row.session_id@);
            let row = db.cache_breaks@[i];
            let back = count - 1 - table::count(db.cache_breaks@, chosen, i);
            &&& count == table::count(db.cache_breaks@, chosen, db.cache_breaks@.len() as int)
            &&& records@.len() == if count <= limit {
                count as int
            } else {
                limit as int
            }
            &&& chosen(row) && back < limit ==> {
                let record = records@[back];
                &&& record.session_id == row.session_id && record.at == row.at
                &&& record.lost_tokens == row.lost_tokens && record.idle_secs == row.idle_secs
                &&& Some(record.cause) == row.cause
            }
        }),
{
    let rows = db.cache_breaks@;
    let chosen = |row: CacheBreakRow| under(db.sessions@, root@, row.session_id@);
    let own = breaks_under(*db, root@);
    assert(own == rows.filter(chosen));
    table::lemma_count(rows, chosen, rows.len() as int);
    let wanted = latest(own, limit as int);
    assert forall|k: int| 0 <= k < wanted.len() implies (#[trigger] wanted[k]).cause is Some by {
        let w = own.len() - 1 - k;
        assert(wanted[k] == own[w]);
        assert(own.contains(own[w]));
        rows.lemma_filter_contains_rev(chosen, own[w]);
        let r = choose|r: int| 0 <= r < rows.len() && rows[r] == own[w];
        assert(rows[r].cause is Some);
    }
    lemma_all_listed(wanted, 0);
    if chosen(rows[i]) {
        table::lemma_chosen_place(rows, chosen, i);
        let back = own.len() - 1 - table::count(rows, chosen, i);
        if back < limit {
            assert(wanted[back] == rows[i]);
            lemma_all_listed(wanted, back);
        }
    }
}

proof fn lemma_all_listed(rows: Seq<CacheBreakRow>, k: int)
    requires
        forall|i: int| 0 <= i < rows.len() ==> (#[trigger] rows[i]).cause is Some,
    ensures
        listed_breaks(rows).len() == rows.len(),
        0 <= k < rows.len() ==> listed_breaks(rows)[k] == (CacheBreakRecord {
            session_id: rows[k].session_id,
            at: rows[k].at,
            lost_tokens: rows[k].lost_tokens,
            cause: rows[k].cause->Some_0,
            idle_secs: rows[k].idle_secs,
        }),
    decreases rows.len(),
{
    if rows.len() > 0 {
        let rest = rows.drop_last();
        assert forall|i: int| 0 <= i < rest.len() implies (#[trigger] rest[i]).cause is Some by {
            assert(rest[i] == rows[i]);
        }
        lemma_all_listed(rest, k);
        assert(rows[rows.len() - 1].cause is Some);
    }
}

/// A break is written down as it was found, behind all others, exactly where
/// its session is there.
pub proof fn a_break_is_written_down(
    before: ConversationDb,
    after: ConversationDb,
    entry: CacheBreak,
    now: String,
    done: Result<(), DbError>,
)
    requires
        is_recorded(before, after, entry, now, done),
        entry.lost_tokens <= i64::MAX && entry.idle_secs <= i64::MAX,
    ensures
        done is Ok <==> exists|s: int|
            0 <= s < before.sessions@.len() && (#[trigger] before.sessions@[s]).session_id@
                == entry.session_id@,
        done is Err ==> after == before,
        done is Ok ==> {
            let row = after.cache_breaks@.last();
            &&& after.cache_breaks@.len() == before.cache_breaks@.len() + 1
            &&& after.cache_breaks@.drop_last() == before.cache_breaks@
            &&& row.session_id == entry.session_id && row.turn_id == entry.turn_id && row.at == now
            &&& row.lost_tokens == entry.lost_tokens && row.idle_secs == entry.idle_secs
            &&& row.cause == Some(entry.cause)
        },
{
    if done is Ok {
        assert(after.cache_breaks@.drop_last() =~= before.cache_breaks@);
    }
}

} // verus!
