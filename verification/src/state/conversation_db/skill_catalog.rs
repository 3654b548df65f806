//! The skill catalog of each session, frozen.
//!
//! The catalog is part of what tools say of themselves. Where it changed in the
//! middle of a session the provider's cache would be lost, so that a session
//! goes on with the one it first sent, until its history is folded.

use vstd::prelude::*;

use crate::text::same_text;

use crate::table::{self, delete_where};
use super::turns::{self, session_exists};
use super::ConversationDb;

verus! {

#[derive(Debug, PartialEq, Eq)]
pub struct SkillCatalogSnapshot {
    /// The turn of the latest summary when the catalog was frozen, empty where
    /// there was none. It is another once the history was folded.
    pub epoch: String,
    pub description: String,
}

impl SkillCatalogSnapshot {
    /// A copy of the snapshot.
    pub fn copy(&self) -> (r: Self)
        ensures
            r == *self,
    {
        SkillCatalogSnapshot { epoch: self.epoch.clone(), description: self.description.clone() }
    }
}

#[derive(Debug)]
pub struct SkillCatalogRow {
    pub session_id: String,
    pub snapshot: SkillCatalogSnapshot,
}

/// Where the catalog of a session stands, and -1 where there is none, from row
/// `from` on.
pub open spec fn catalog_at(rows: Seq<SkillCatalogRow>, session: Seq<char>, from: int) -> int
    decreases rows.len() - from,
{
    if from >= rows.len() {
        -1
    } else if rows[from].session_id@ == session {
        from
    } else {
        catalog_at(rows, session, from + 1)
    }
}

/// The catalog of a session.
pub open spec fn catalog_of(rows: Seq<SkillCatalogRow>, session: Seq<char>) -> Option<
    SkillCatalogSnapshot,
> {
    let at = catalog_at(rows, session, 0);
    if at >= 0 {
        Some(rows[at].snapshot)
    } else {
        None
    }
}

/// Where the catalog of a session stands.
fn find_catalog(rows: &Vec<SkillCatalogRow>, session: &str) -> (at: Option<usize>)
    ensures
        match at {
            Some(i) => i < rows.len() && catalog_at(rows@, session@, 0) == i,
            None => catalog_at(rows@, session@, 0) == -1,
        },
{
    let mut i: usize = 0;
    while i < rows.len()
        invariant
            i <= rows@.len(),
            catalog_at(rows@, session@, 0) == catalog_at(rows@, session@, i as int),
        decreases rows@.len() - i,
    {
        if same_text(rows[i].session_id.as_str(), session) {
            return Some(i);
        }
        i += 1;
    }
    None
}

/// What freezing a catalog comes to.
pub open spec fn is_frozen(
    before: ConversationDb,
    after: ConversationDb,
    session: String,
    snapshot: SkillCatalogSnapshot,
) -> bool {
    let rows = before.skill_catalogs@;
    let at = catalog_at(rows, session@, 0);
    &&& after.skill_catalogs@ == if at >= 0 {
        rows.update(at, SkillCatalogRow { snapshot, ..rows[at] })
    } else {
        rows.push(SkillCatalogRow { session_id: session, snapshot })
    }
    &&& after == (ConversationDb { skill_catalogs: after.skill_catalogs, ..before })
}

/// What forgetting the catalog of a session comes to.
pub open spec fn is_forgotten(
    before: ConversationDb,
    after: ConversationDb,
    session: Seq<char>,
) -> bool {
    &&& after.skill_catalogs@ == table::without(
        before.skill_catalogs@,
        |row: SkillCatalogRow| row.session_id@ == session,
    )
    &&& after == (ConversationDb { skill_catalogs: after.skill_catalogs, ..before })
}

/// What forgetting the catalogs of sessions that are gone comes to.
pub open spec fn are_pruned(before: ConversationDb, after: ConversationDb) -> bool {
    &&& after.skill_catalogs@ == table::without(
        before.skill_catalogs@,
        |row: SkillCatalogRow| !turns::has_session(before.sessions@, row.session_id@),
    )
    &&& after == (ConversationDb { skill_catalogs: after.skill_catalogs, ..before })
}

impl ConversationDb {
    /// The catalog of a session.
    pub fn skill_catalog_snapshot(&self, session_id: &str) -> (snapshot: Option<
        SkillCatalogSnapshot,
    >)
        ensures
            snapshot == catalog_of(self.skill_catalogs@, session_id@),
    {
        match find_catalog(&self.skill_catalogs, session_id) {
            Some(at) => Some(self.skill_catalogs[at].snapshot.copy()),
            None => None,
        }
    }

    /// Freezes the catalog of a session.
    pub fn set_skill_catalog_snapshot(&mut self, session_id: &String, snapshot: SkillCatalogSnapshot)
        requires
            old(self).wf(),
        ensures
            final(self).wf(),
            is_frozen(*old(self), *final(self), *session_id, snapshot),
    {
        let ghost before = self.skill_catalogs@;
        match find_catalog(&self.skill_catalogs, session_id.as_str()) {
            Some(at) => {
                let row = &mut self.skill_catalogs[at];
                row.snapshot = snapshot;
                assert(self.skill_catalogs@ =~= before.update(
                    at as int,
                    self.skill_catalogs@[at as int],
                ));
            },
            None => {
                self.skill_catalogs.push(
                    SkillCatalogRow { session_id: session_id.clone(), snapshot },
                );
            },
        }
    }

    /// Forgets the catalog of a session that starts over.
    pub fn forget_skill_catalog_snapshot(&mut self, session_id: &str)
        requires
            old(self).wf(),
        ensures
            final(self).wf(),
            is_forgotten(*old(self), *final(self), session_id@),
    {
        let test = |row: &SkillCatalogRow| -> (r: bool)
            ensures
                r == (row.session_id@ == session_id@),
        { same_text(row.session_id.as_str(), session_id) };
        delete_where(
            &mut self.skill_catalogs,
            test,
            Ghost(|row: SkillCatalogRow| row.session_id@ == session_id@),
        );
    }

    /// Forgets the catalogs of sessions that are gone.
    pub fn prune_orphan_snapshots(&mut self)
        requires
            old(self).wf(),
        ensures
            final(self).wf(),
            are_pruned(*old(self), *final(self)),
    {
        let sessions = &self.sessions;
        let test = |row: &SkillCatalogRow| -> (r: bool)
            ensures
                r == !turns::has_session(sessions@, row.session_id@),
        { !session_exists(sessions, row.session_id.as_str()) };
        delete_where(
            &mut self.skill_catalogs,
            test,
            Ghost(|row: SkillCatalogRow| !turns::has_session(sessions@, row.session_id@)),
        );
    }
}

// ---------------------------------------------------------------------------
// Laws
// ---------------------------------------------------------------------------

/// A catalog that was frozen is the one that is read, and those of other
/// sessions stay as they are.
pub proof fn a_frozen_catalog_is_read(
    before: ConversationDb,
    after: ConversationDb,
    session: String,
    snapshot: SkillCatalogSnapshot,
    mine: &str,
    theirs: &str,
    read: Option<SkillCatalogSnapshot>,
    read_other: Option<SkillCatalogSnapshot>,
    was: Option<SkillCatalogSnapshot>,
)
    requires
        is_frozen(before, after, session, snapshot),
        mine@ == session@ && theirs@ != session@,
        call_ensures(ConversationDb::skill_catalog_snapshot, (&after, mine), read),
        call_ensures(ConversationDb::skill_catalog_snapshot, (&after, theirs), read_other),
        call_ensures(ConversationDb::skill_catalog_snapshot, (&before, theirs), was),
    ensures
        read == Some(snapshot),
        read_other == was,
{
    let rows = before.skill_catalogs@;
    let now = after.skill_catalogs@;
    lemma_catalog_at(rows, session@, 0);
    lemma_catalog_at(rows, theirs@, 0);
    lemma_catalog_at(now, session@, 0);
    lemma_catalog_at(now, theirs@, 0);
    let at = catalog_at(rows, session@, 0);
    let place = if at >= 0 {
        at
    } else {
        rows.len() as int
    };
    assert(now[place].session_id@ == session@);
    assert forall|k: int| 0 <= k < place implies now[k] == #[trigger] rows[k] by {}
    let a = catalog_at(rows, theirs@, 0);
    let b = catalog_at(now, theirs@, 0);
    if a >= 0 {
        assert(now[a].session_id@ == theirs@ && now[a] == rows[a]);
    }
    if b >= 0 {
        assert(now[b].session_id@ == theirs@);
        assert(b != place);
        assert(rows[b] == now[b]);
    }
    let c = catalog_at(now, session@, 0);
    if c < place {
        assert(rows[c] == now[c]);
    }
}

proof fn lemma_catalog_at(rows: Seq<SkillCatalogRow>, session: Seq<char>, from: int)
    requires
        0 <= from,
    ensures
        ({
            let at = catalog_at(rows, session, from);
            &&& at == -1 || from <= at < rows.len()
            &&& at >= 0 ==> rows[at].session_id@ == session
            &&& forall|k: int|
                from <= k < rows.len() && (at < 0 || k < at) ==> (#[trigger] rows[k]).session_id@
                    != session
        }),
    decreases rows.len() - from,
{
    if from < rows.len() {
        lemma_catalog_at(rows, session, from + 1);
    }
}

/// Forgetting the catalog of a session takes it away and leaves those of all
/// others, and pruning takes away those of sessions that are not there.
pub proof fn only_those_catalogs_are_gone(
    before: ConversationDb,
    after: ConversationDb,
    pruned: ConversationDb,
    session: Seq<char>,
)
    requires
        is_forgotten(before, after, session),
        are_pruned(before, pruned),
    ensures
        table::is_rest(
            before.skill_catalogs@,
            after.skill_catalogs@,
            |row: SkillCatalogRow| row.session_id@ == session,
        ),
        table::is_rest(
            before.skill_catalogs@,
            pruned.skill_catalogs@,
            |row: SkillCatalogRow|
                !exists|s: int|
                    0 <= s < before.sessions@.len() && (#[trigger] before.sessions@[s]).session_id@
                        == row.session_id@,
        ),
{
    table::lemma_rest_of(
        before.skill_catalogs@,
        after.skill_catalogs@,
        |row: SkillCatalogRow| row.session_id@ == session,
    );
    table::lemma_rest_of(
        before.skill_catalogs@,
        pruned.skill_catalogs@,
        |row: SkillCatalogRow|
            !exists|s: int|
                0 <= s < before.sessions@.len() && (#[trigger] before.sessions@[s]).session_id@
                    == row.session_id@,
    );
}

} // verus!
