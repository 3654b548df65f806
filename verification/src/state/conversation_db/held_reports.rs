//! Reports of background jobs that could not be handed over yet.
//!
//! Jobs that one turn started are reported together once the last is done, and
//! reports wait while an account is away. Each is a row of its own.

use vstd::prelude::*;

use crate::text::{self, same_text};

use super::rows::{copy_opt, DbError};
use crate::table::{self, delete_where};
use super::turns::{self, session_exists};
use super::ConversationDb;

verus! {

/// A report that waits.
#[derive(Debug, PartialEq, Eq)]
pub struct HeldJobReport {
    pub id: i64,
    pub session_id: String,
    /// The turn that started the jobs which are reported together.
    pub batch: String,
    pub job_id: String,
    /// Who started that turn, where it was started from a platform.
    pub initiator: Option<String>,
    pub content: String,
}

impl HeldJobReport {
    /// A copy of the report.
    pub fn copy(&self) -> (r: Self)
        ensures
            r == *self,
    {
        HeldJobReport {
            id: self.id,
            session_id: self.session_id.clone(),
            batch: self.batch.clone(),
            job_id: self.job_id.clone(),
            initiator: copy_opt(&self.initiator),
            content: self.content.clone(),
        }
    }
}

/// The sessions of reports, each once, in the order of their first.
pub open spec fn held_sessions(rows: Seq<HeldJobReport>) -> Seq<String>
    decreases rows.len(),
{
    if rows.len() == 0 {
        Seq::empty()
    } else {
        let rest = held_sessions(rows.drop_last());
        let session = rows.last().session_id;
        if text::listed(rest, session@) {
            rest
        } else {
            rest.push(session)
        }
    }
}

/// Whether reports stand in the order in which they came, each with a number
/// of its own that none had before.
pub open spec fn held_in_order(rows: Seq<HeldJobReport>, last_id: i64) -> bool {
    &&& forall|i: int, j: int|
        0 <= i < j < rows.len() ==> (#[trigger] rows[i]).id < (#[trigger] rows[j]).id
    &&& forall|i: int| 0 <= i < rows.len() ==> (#[trigger] rows[i]).id <= last_id
}

/// What keeping a report comes to: it gets the next number.
pub open spec fn is_held(
    before: ConversationDb,
    after: ConversationDb,
    report: HeldJobReport,
    done: Result<(), DbError>,
) -> bool {
    let known = turns::has_session(before.sessions@, report.session_id@);
    match done {
        Ok(()) => {
            &&& known
            &&& before.last_held_id < i64::MAX
            &&& after.last_held_id == before.last_held_id + 1
            &&& after.held_reports@ == before.held_reports@.push(
                HeldJobReport { id: after.last_held_id, ..report },
            )
            &&& after == (ConversationDb {
                held_reports: after.held_reports,
                last_held_id: after.last_held_id,
                ..before
            })
        },
        Err(DbError::UnknownSession) => !known && after == before,
        Err(e) => e == DbError::SequenceFull && known && before.last_held_id == i64::MAX && after
            == before,
    }
}

/// What deleting reports comes to.
pub open spec fn are_released(
    before: ConversationDb,
    after: ConversationDb,
    ids: Seq<i64>,
    released: int,
) -> bool {
    &&& after.held_reports@ == table::without(
        before.held_reports@,
        |row: HeldJobReport| ids.contains(row.id),
    )
    &&& released == before.held_reports@.len() - after.held_reports@.len()
    &&& after == (ConversationDb { held_reports: after.held_reports, ..before })
}

impl ConversationDb {
    /// Keeps a report until it can be handed over.
    pub fn hold_job_report(
        &mut self,
        session_id: &String,
        batch: &String,
        job_id: &String,
        initiator: &Option<String>,
        content: &String,
    ) -> (done: Result<(), DbError>)
        requires
            old(self).wf(),
        ensures
            final(self).wf(),
            held_in_order(old(self).held_reports@, old(self).last_held_id) ==> held_in_order(
                final(self).held_reports@,
                final(self).last_held_id,
            ),
            is_held(
                *old(self),
                *final(self),
                (HeldJobReport {
                    id: 0,
                    session_id: *session_id,
                    batch: *batch,
                    job_id: *job_id,
                    initiator: *initiator,
                    content: *content,
                }),
                done,
            ),
    {
        if !session_exists(&self.sessions, session_id.as_str()) {
            return Err(DbError::UnknownSession);
        }
        if self.last_held_id == i64::MAX {
            return Err(DbError::SequenceFull);
        }
        let id: i64 = self.last_held_id + 1;
        self.last_held_id = id;
        self.held_reports.push(
            HeldJobReport {
                id,
                session_id: session_id.clone(),
                batch: batch.clone(),
                job_id: job_id.clone(),
                initiator: copy_opt(initiator),
                content: content.clone(),
            },
        );
        Ok(())
    }

    /// The reports that wait for a session, the earliest first.
    pub fn held_job_reports(&self, session_id: &str) -> (reports: Vec<HeldJobReport>)
        ensures
            reports@ == self.held_reports@.filter(
                |row: HeldJobReport| row.session_id@ == session_id@,
            ),
    {
        let rows = &self.held_reports;
        let ghost own = |row: HeldJobReport| row.session_id@ == session_id@;
        let mut reports: Vec<HeldJobReport> = Vec::new();
        let mut i: usize = 0;
        proof {
            reveal(Seq::filter);
            assert(rows@.take(0).filter(own) =~= Seq::empty());
        }
        while i < rows.len()
            invariant
                i <= rows@.len(),
                own == (|row: HeldJobReport| row.session_id@ == session_id@),
                reports@ =~= rows@.take(i as int).filter(own),
            decreases rows@.len() - i,
        {
            proof {
                table::lemma_filter_step(rows@, own, i as int);
            }
            if same_text(rows[i].session_id.as_str(), session_id) {
                reports.push(rows[i].copy());
            }
            i += 1;
        }
        assert(rows@.take(rows@.len() as int) =~= rows@);
        reports
    }

    /// The sessions that reports wait for, that of the earliest first.
    pub fn sessions_with_held_job_reports(&self) -> (sessions: Vec<String>)
        ensures
            sessions@ == held_sessions(self.held_reports@),
    {
        let rows = &self.held_reports;
        let mut sessions: Vec<String> = Vec::new();
        let mut i: usize = 0;
        proof {
            assert(rows@.take(0) =~= Seq::empty());
        }
        while i < rows.len()
            invariant
                i <= rows@.len(),
                sessions@ =~= held_sessions(rows@.take(i as int)),
            decreases rows@.len() - i,
        {
            proof {
                assert(rows@.take(i + 1).drop_last() =~= rows@.take(i as int));
                assert(rows@.take(i + 1).last() == rows@[i as int]);
            }
            if !text::is_listed(&sessions, rows[i].session_id.as_str()) {
                sessions.push(rows[i].session_id.clone());
            }
            i += 1;
        }
        assert(rows@.take(rows@.len() as int) =~= rows@);
        sessions
    }

    /// Deletes reports that were handed over, and says how many there were.
    pub fn release_held_job_reports(&mut self, ids: &Vec<i64>) -> (released: usize)
        requires
            old(self).wf(),
        ensures
            final(self).wf(),
            are_released(*old(self), *final(self), ids@, released as int),
    {
        let before: usize = self.held_reports.len();
        let test = |row: &HeldJobReport| -> (r: bool)
            ensures
                r == ids@.contains(row.id),
        { holds_id(ids, row.id) };
        delete_where(
            &mut self.held_reports,
            test,
            Ghost(|row: HeldJobReport| ids@.contains(row.id)),
        );
        proof {
            old(self).held_reports@.lemma_filter_len(
                |row: HeldJobReport| !(|row: HeldJobReport| ids@.contains(row.id))(row),
            );
        }
        before - self.held_reports.len()
    }
}

/// Whether `id` is one of `ids`.
fn holds_id(ids: &Vec<i64>, id: i64) -> (r: bool)
    ensures
        r == ids@.contains(id),
{
    let mut i: usize = 0;
    while i < ids.len()
        invariant
            i <= ids@.len(),
            forall|k: int| 0 <= k < i ==> #[trigger] ids@[k] != id,
        decreases ids@.len() - i,
    {
        if ids[i] == id {
            return true;
        }
        i += 1;
    }
    false
}

// ---------------------------------------------------------------------------
// Laws
// ---------------------------------------------------------------------------

/// A report that is kept stands behind all others, as it was given, with a
/// number that none had before, exactly where its session is there.
pub proof fn a_kept_report_gets_the_next_number(
    before: ConversationDb,
    after: ConversationDb,
    report: HeldJobReport,
    done: Result<(), DbError>,
)
    requires
        is_held(before, after, report, done),
        before.last_held_id < i64::MAX,
    ensures
        done is Ok <==> exists|s: int|
            0 <= s < before.sessions@.len() && (#[trigger] before.sessions@[s]).session_id@
                == report.session_id@,
        done is Err ==> after == before,
        done is Ok ==> {
            let row = after.held_reports@.last();
            &&& after.held_reports@.len() == before.held_reports@.len() + 1
            &&& after.held_reports@.drop_last() == before.held_reports@
            &&& row.id == before.last_held_id + 1 && after.last_held_id == row.id
            &&& row.session_id == report.session_id && row.batch == report.batch && row.job_id
                == report.job_id
            &&& row.initiator == report.initiator && row.content == report.content
        },
{
    if done is Ok {
        assert(after.held_reports@.drop_last() =~= before.held_reports@);
    }
}

/// Every report that waits for a session is given, in its place, and no other.
pub proof fn every_held_report_is_given(
    db: &ConversationDb,
    session: &str,
    reports: Vec<HeldJobReport>,
    i: int,
)
    requires
        call_ensures(ConversationDb::held_job_reports, (db, session), reports),
        0 <= i < db.held_reports@.len(),
    ensures
        ({
            let own = |row: HeldJobReport| row.session_id@ == session@;
            &&& reports@.len() == table::count(
                db.held_reports@,
                own,
                db.held_reports@.len() as int,
            )
            &&& own(db.held_reports@[i]) ==> reports@[table::count(db.held_reports@, own, i)]
                == db.held_reports@[i]
        }),
{
    let own = |row: HeldJobReport| row.session_id@ == session@;
    assert(reports@ == db.held_reports@.filter(own));
    table::lemma_count(db.held_reports@, own, db.held_reports@.len() as int);
    if own(db.held_reports@[i]) {
        table::lemma_chosen_place(db.held_reports@, own, i);
    }
}

/// The sessions that reports wait for are told each once, all of them, in the
/// order of their first reports.
pub proof fn every_waiting_session_is_told_once(
    db: &ConversationDb,
    sessions: Vec<String>,
    i: int,
    a: int,
    b: int,
)
    requires
        call_ensures(ConversationDb::sessions_with_held_job_reports, (db,), sessions),
    ensures
        0 <= i < db.held_reports@.len() ==> exists|k: int|
            0 <= k < sessions@.len() && (#[trigger] sessions@[k])@ == db.held_reports@[i].session_id@,
        0 <= a < b < sessions@.len() ==> sessions@[a]@ != sessions@[b]@,
        0 <= a < b < sessions@.len() ==> exists|p: int, q: int|
            0 <= p < q < db.held_reports@.len() && (#[trigger] db.held_reports@[p]).session_id@
                == sessions@[a]@ && (#[trigger] db.held_reports@[q]).session_id@ == sessions@[b]@
                && forall|k: int|
                0 <= k < q ==> (#[trigger] db.held_reports@[k]).session_id@ != sessions@[b]@,
{
    lemma_held(db.held_reports@, i, a, b);
}

proof fn lemma_held(rows: Seq<HeldJobReport>, i: int, a: int, b: int)
    ensures
        ({
            let told = held_sessions(rows);
            &&& 0 <= i < rows.len() ==> text::listed(told, rows[i].session_id@)
            &&& 0 <= a < b < told.len() ==> told[a]@ != told[b]@
            &&& 0 <= b < told.len() ==> exists|q: int|
                0 <= q < rows.len() && (#[trigger] rows[q]).session_id@ == told[b]@ && forall|
                    k: int,
                |
                    0 <= k < q ==> (#[trigger] rows[k]).session_id@ != told[b]@
            &&& 0 <= a < b < told.len() ==> exists|p: int, q: int|
                0 <= p < q < rows.len() && (#[trigger] rows[p]).session_id@ == told[a]@ && (
                #[trigger] rows[q]).session_id@ == told[b]@ && forall|k: int|
                    0 <= k < q ==> (#[trigger] rows[k]).session_id@ != told[b]@
        }),
    decreases rows.len(),
{
    if rows.len() > 0 {
        let less = rows.drop_last();
        let n = less.len() as int;
        let before = held_sessions(less);
        let told = held_sessions(rows);
        lemma_held(less, i, a, b);
        lemma_held(less, i, a, a);
        let session = rows.last().session_id;
        if !text::listed(before, session@) {
            assert(told == before.push(session));
            assert(told[before.len() as int]@ == session@);
            if 0 <= i < n {
                let k = choose|k: int|
                    0 <= k < before.len() && (#[trigger] before[k])@ == less[i].session_id@;
                assert(told[k]@ == rows[i].session_id@);
            }
            assert forall|k: int| 0 <= k < n implies (#[trigger] rows[k]).session_id@ != session@ by {
                lemma_held(less, k, 0, 0);
                assert(less[k] == rows[k]);
            }
            if 0 <= a < b < told.len() && b == before.len() {
                assert(told[a] == before[a]);
                if before[a]@ == session@ {
                    assert(text::listed(before, session@));
                }
                let p = choose|p: int|
                    0 <= p < less.len() && (#[trigger] less[p]).session_id@ == before[a]@;
                assert(rows[p].session_id@ == told[a]@ && rows[n].session_id@ == told[b]@);
            }
        }
        if 0 <= b < before.len() {
            let q = choose|q: int|
                0 <= q < less.len() && (#[trigger] less[q]).session_id@ == before[b]@ && forall|
                    k: int,
                |
                    0 <= k < q ==> (#[trigger] less[k]).session_id@ != before[b]@;
            assert(rows[q] == less[q]);
            assert forall|k: int| 0 <= k < q implies (#[trigger] rows[k]).session_id@
                != before[b]@ by {
                assert(rows[k] == less[k]);
            }
            assert(told[b] == before[b]);
            if 0 <= a < b {
                let (p, r) = choose|p: int, r: int|
                    0 <= p < r < less.len() && (#[trigger] less[p]).session_id@ == before[a]@ && (
                    #[trigger] less[r]).session_id@ == before[b]@ && forall|k: int|
                        0 <= k < r ==> (#[trigger] less[k]).session_id@ != before[b]@;
                assert(rows[p] == less[p] && rows[r] == less[r]);
                assert forall|k: int| 0 <= k < r implies (#[trigger] rows[k]).session_id@
                    != before[b]@ by {
                    assert(rows[k] == less[k]);
                }
                assert(told[a] == before[a]);
            }
        }
    }
}

/// Deleting reports deletes those of the ids that are given, and says how many
/// it were. All others stay in their order.
pub proof fn only_released_reports_are_gone(
    before: ConversationDb,
    after: ConversationDb,
    ids: Seq<i64>,
    released: int,
)
    requires
        are_released(before, after, ids, released),
    ensures
        table::is_rest(
            before.held_reports@,
            after.held_reports@,
            |row: HeldJobReport| exists|k: int| 0 <= k < ids.len() && #[trigger] ids[k] == row.id,
        ),
        released == before.held_reports@.len() - after.held_reports@.len(),
        after.last_held_id == before.last_held_id && after.turns == before.turns,
{
    table::lemma_rest_of(
        before.held_reports@,
        after.held_reports@,
        |row: HeldJobReport| exists|k: int| 0 <= k < ids.len() && #[trigger] ids[k] == row.id,
    );
}

} // verus!
