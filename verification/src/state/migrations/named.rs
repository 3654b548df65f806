//! Migrations that only add to the schema.
//!
//! They are recorded by their ids and leave the version alone, so that a
//! program that does not know them can still open the database.

use vstd::prelude::*;

use crate::json;
use crate::table;
use crate::text::{self, is_listed};

verus! {

/// The migrations that only add, in order.
pub const NAMED_MIGRATIONS: [&'static str; 3] = [
    "2026-09-24-session-scoped-state",
    "2026-09-25-cache-breaks",
    "2026-09-26-held-job-reports",
];

/// The migrations that a ledger does not have.
pub open spec fn missing_from(ledger: Seq<String>) -> Seq<&'static str> {
    NAMED_MIGRATIONS@.filter(|id: &'static str| !text::listed(ledger, id@))
}

/// The migrations that a ledger does not have. Ids in it that are not known
/// are nobody's concern.
pub fn named_pending(ledger: &Vec<String>) -> (ids: Vec<&'static str>)
    ensures
        ids@ == missing_from(ledger@),
{
    let all: [&'static str; 3] = NAMED_MIGRATIONS;
    let ghost keep = |id: &'static str| !text::listed(ledger@, id@);
    let mut ids: Vec<&'static str> = Vec::new();
    let mut i: usize = 0;
    proof {
        reveal(Seq::filter);
        assert(all@.take(0).filter(keep) =~= Seq::empty());
    }
    while i < 3
        invariant
            i <= 3,
            all@.len() == 3,
            keep == (|id: &'static str| !text::listed(ledger@, id@)),
            ids@ == all@.take(i as int).filter(keep),
        decreases 3 - i,
    {
        proof {
            table::lemma_filter_step(all@, keep, i as int);
        }
        if !is_listed(ledger, all[i]) {
            ids.push(all[i]);
        }
        i += 1;
    }
    assert(all@.take(3) =~= all@);
    ids
}

/// A ledger with one id more, unless it has it.
pub open spec fn recorded(ledger: Seq<Seq<char>>, id: Seq<char>) -> Seq<Seq<char>> {
    if ledger.contains(id) {
        ledger
    } else {
        ledger.push(id)
    }
}

/// Whether `after` is `before` with a migration recorded, and `runs` says that
/// it was not.
pub open spec fn is_recorded(
    before: Seq<String>,
    id: Seq<char>,
    after: Seq<String>,
    runs: bool,
) -> bool {
    &&& json::texts(after) == recorded(json::texts(before), id)
    &&& runs == !text::listed(before, id)
}

/// Whether `after` is `before` once it was brought up to date by the
/// migrations `ids`.
pub open spec fn are_run(before: Seq<String>, after: Seq<String>, ids: Seq<&'static str>) -> bool {
    &&& ids == missing_from(before)
    &&& json::texts(after) == json::texts(before) + ids.map_values(|id: &'static str| id@)
    &&& missing_from(after).len() == 0
}

/// Records a migration in the ledger as it is once the database is locked, and
/// says whether it has to run: someone else may have run it in the meantime.
pub fn record_named(ledger: &mut Vec<String>, id: &str) -> (runs: bool)
    ensures
        is_recorded(old(ledger)@, id@, final(ledger)@, runs),
{
    proof {
        json::lemma_listed(ledger@, id@);
    }
    if is_listed(ledger, id) {
        false
    } else {
        let ghost before = ledger@;
        ledger.push(id.to_owned());
        assert(json::texts(ledger@) =~= json::texts(before).push(id@));
        true
    }
}

/// Brings a ledger up to date, and says which migrations have to run, in
/// order.
pub fn run_named_migrations(ledger: &mut Vec<String>) -> (ids: Vec<&'static str>)
    ensures
        are_run(old(ledger)@, final(ledger)@, ids@),
{
    let ids = named_pending(ledger);
    let ghost start = ledger@;
    let ghost added = ids@.map_values(|id: &'static str| id@);
    let mut i: usize = 0;
    proof {
        lemma_missing_differ(start);
        assert(json::texts(ledger@) =~= json::texts(start) + added.take(0));
    }
    while i < ids.len()
        invariant
            i <= ids@.len(),
            added == ids@.map_values(|id: &'static str| id@),
            ids@ == missing_from(start),
            forall|a: int, b: int|
                0 <= a < b < ids@.len() ==> (#[trigger] ids@[a])@ != (#[trigger] ids@[b])@,
            json::texts(ledger@) =~= json::texts(start) + added.take(i as int),
        decreases ids@.len() - i,
    {
        let ghost before = ledger@;
        proof {
            let keep = |id: &'static str| !text::listed(start, id@);
            table::lemma_filtered(NAMED_MIGRATIONS@, keep, i as int);
            json::lemma_listed(start, ids@[i as int]@);
            let held = json::texts(before);
            let id = ids@[i as int]@;
            if held.contains(id) {
                let k = choose|k: int| 0 <= k < held.len() && held[k] == id;
                if k < start.len() {
                    assert(json::texts(start)[k] == id);
                } else {
                    assert(added[k - start.len()] == ids@[k - start.len()]@);
                }
            }
        }
        record_named(ledger, ids[i]);
        proof {
            assert(added[i as int] == ids@[i as int]@);
            assert(added.take(i + 1) =~= added.take(i as int).push(added[i as int]));
        }
        i += 1;
    }
    proof {
        assert(added.take(added.len() as int) =~= added);
        lemma_nothing_missing(start, ledger@);
    }
    ids
}

/// No two migrations have the same id.
proof fn lemma_missing_differ(ledger: Seq<String>)
    ensures
        ({
            let ids = missing_from(ledger);
            forall|a: int, b: int|
                0 <= a < b < ids.len() ==> (#[trigger] ids[a])@ != (#[trigger] ids[b])@
        }),
{
    let keep = |id: &'static str| !text::listed(ledger, id@);
    let all = NAMED_MIGRATIONS@;
    reveal_strlit("2026-09-24-session-scoped-state");
    reveal_strlit("2026-09-25-cache-breaks");
    reveal_strlit("2026-09-26-held-job-reports");
    assert(all[0]@[9] == '4' && all[1]@[9] == '5' && all[2]@[9] == '6');
    reveal_with_fuel(Seq::filter, 4);
    assert(all.drop_last().drop_last().drop_last() =~= Seq::empty());
    assert(all.drop_last().drop_last().last() == all[0]);
    assert(all.drop_last().last() == all[1]);
    assert(all.last() == all[2]);
}

/// A ledger that was brought up to date lacks nothing.
proof fn lemma_nothing_missing(before: Seq<String>, after: Seq<String>)
    requires
        json::texts(after) == json::texts(before) + missing_from(before).map_values(
            |id: &'static str| id@,
        ),
    ensures
        missing_from(after).len() == 0,
{
    let keep = |id: &'static str| !text::listed(after, id@);
    let kept_before = |id: &'static str| !text::listed(before, id@);
    let all = NAMED_MIGRATIONS@;
    if missing_from(after).len() > 0 {
        let id = missing_from(after)[0];
        table::lemma_filtered(all, keep, 0);
        all.lemma_filter_contains_rev(keep, id);
        let k = choose|k: int| 0 <= k < all.len() && all[k] == id;
        json::lemma_listed(after, id@);
        json::lemma_listed(before, id@);
        let held = json::texts(before);
        let now = json::texts(after);
        if text::listed(before, id@) {
            let i = choose|i: int| 0 <= i < held.len() && held[i] == id@;
            assert(now[i] == id@);
        } else {
            all.lemma_filter_contains(kept_before, k);
            let ids = missing_from(before);
            let i = choose|i: int| 0 <= i < ids.len() && ids[i] == id;
            assert(now[held.len() + i] == id@);
        }
    }
}

// ---------------------------------------------------------------------------
// Laws
// ---------------------------------------------------------------------------

/// An id that is not known stays in the ledger and keeps nothing from running.
pub proof fn unknown_ids_are_left_alone(ledger: Seq<String>, other: String)
    requires
        forall|i: int| 0 <= i < 3 ==> (#[trigger] NAMED_MIGRATIONS@[i])@ != other@,
    ensures
        missing_from(ledger.push(other)) == missing_from(ledger),
{
    let more = ledger.push(other);
    let a = |id: &'static str| !text::listed(ledger, id@);
    let b = |id: &'static str| !text::listed(more, id@);
    let all = NAMED_MIGRATIONS@;
    assert forall|i: int| 0 <= i < all.len() implies a(#[trigger] all[i]) == b(all[i]) by {
        let id = all[i]@;
        if text::listed(ledger, id) {
            let k = choose|k: int| 0 <= k < ledger.len() && (#[trigger] ledger[k])@ == id;
            assert(more[k] == ledger[k]);
        }
        if text::listed(more, id) {
            let k = choose|k: int| 0 <= k < more.len() && (#[trigger] more[k])@ == id;
            assert(k < ledger.len());
            assert(ledger[k] == more[k]);
        }
    }
    table::lemma_same_filter(all, a, b);
}

/// The migrations that are pending are those that the ledger does not have, in
/// order.
pub proof fn what_is_not_recorded_is_pending(ledger: &Vec<String>, ids: Vec<&'static str>)
    requires
        call_ensures(named_pending, (ledger,), ids),
    ensures
        table::is_rest(
            NAMED_MIGRATIONS@,
            ids@,
            |id: &'static str| exists|i: int|
                0 <= i < ledger@.len() && (#[trigger] ledger@[i])@ == id@,
        ),
{
    lemma_pending(ledger@);
}

proof fn lemma_pending(ledger: Seq<String>)
    ensures
        table::is_rest(
            NAMED_MIGRATIONS@,
            missing_from(ledger),
            |id: &'static str| exists|i: int|
                0 <= i < ledger.len() && (#[trigger] ledger[i])@ == id@,
        ),
{
    let chosen = |id: &'static str| !text::listed(ledger, id@);
    let gone = |id: &'static str| exists|i: int|
        0 <= i < ledger.len() && (#[trigger] ledger[i])@ == id@;
    table::lemma_chosen_rest(NAMED_MIGRATIONS@, chosen, gone);
    assert(missing_from(ledger) == NAMED_MIGRATIONS@.filter(chosen));
}

/// A migration runs where the ledger does not have it, and is then its last
/// entry. Where the ledger has it, it stays as it is.
pub proof fn a_migration_is_recorded_once(
    before: Seq<String>,
    id: Seq<char>,
    after: Seq<String>,
    runs: bool,
)
    requires
        is_recorded(before, id, after, runs),
    ensures
        runs == !(exists|i: int| 0 <= i < before.len() && (#[trigger] before[i])@ == id),
        after.len() == before.len() + if runs {
            1int
        } else {
            0
        },
        forall|i: int| 0 <= i < before.len() ==> (#[trigger] after[i])@ == before[i]@,
        runs ==> after[before.len() as int]@ == id,
{
    json::lemma_listed(before, id);
    let a = json::texts(before);
    let b = json::texts(after);
    assert(b.len() == after.len() && a.len() == before.len());
    assert forall|i: int| 0 <= i < before.len() implies (#[trigger] after[i])@ == before[i]@ by {
        assert(b[i] == after[i]@ && a[i] == before[i]@);
    }
    if runs {
        assert(b[before.len() as int] == after[before.len() as int]@);
    }
}

/// A ledger that is brought up to date keeps what it had and gets those behind
/// it that it did not have, in order. These are the ones that run.
pub proof fn all_that_is_missing_is_run(
    before: Seq<String>,
    after: Seq<String>,
    ids: Seq<&'static str>,
)
    requires
        are_run(before, after, ids),
    ensures
        table::is_rest(
            NAMED_MIGRATIONS@,
            ids,
            |id: &'static str| exists|i: int|
                0 <= i < before.len() && (#[trigger] before[i])@ == id@,
        ),
        after.len() == before.len() + ids.len(),
        forall|i: int| 0 <= i < before.len() ==> (#[trigger] after[i])@ == before[i]@,
        forall|i: int| 0 <= i < ids.len() ==> after[before.len() + i]@ == (#[trigger] ids[i])@,
{
    lemma_pending(before);
    let a = json::texts(before);
    let b = json::texts(after);
    let c = ids.map_values(|id: &'static str| id@);
    assert(b.len() == after.len() && a.len() == before.len());
    assert forall|i: int| 0 <= i < before.len() implies (#[trigger] after[i])@ == before[i]@ by {
        assert(b[i] == after[i]@ && a[i] == before[i]@);
    }
    assert forall|i: int| 0 <= i < ids.len() implies after[before.len() + i]@ == (
    #[trigger] ids[i])@ by {
        assert(b[before.len() + i] == after[before.len() + i]@);
        assert(c[i] == ids[i]@);
    }
}

} // verus!
