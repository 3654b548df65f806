//! Operations on a table, a list of rows in the order they were inserted.

use vstd::prelude::*;

verus! {

/// The rows that `chosen` does not choose.
pub open spec fn without<T>(rows: Seq<T>, chosen: spec_fn(T) -> bool) -> Seq<T> {
    rows.filter(|row: T| !chosen(row))
}

/// The rows with those that `chosen` chooses changed by `change`.
pub open spec fn changed<T>(
    rows: Seq<T>,
    chosen: spec_fn(T) -> bool,
    change: spec_fn(T) -> T,
) -> Seq<T> {
    rows.map_values(
        |row: T|
            if chosen(row) {
                change(row)
            } else {
                row
            },
    )
}

/// Filtering a longer prefix filters the row that it has more.
pub proof fn lemma_filter_step<T>(rows: Seq<T>, keep: spec_fn(T) -> bool, n: int)
    requires
        0 <= n < rows.len(),
    ensures
        rows.take(n + 1).filter(keep) == if keep(rows[n]) {
            rows.take(n).filter(keep).push(rows[n])
        } else {
            rows.take(n).filter(keep)
        },
{
    reveal(Seq::filter);
    assert(rows.take(n + 1).drop_last() =~= rows.take(n));
}

/// Deletes the rows that `chosen` chooses.
pub fn delete_where<T, F: Fn(&T) -> bool>(
    rows: &mut Vec<T>,
    test: F,
    Ghost(chosen): Ghost<spec_fn(T) -> bool>,
)
    requires
        forall|row: &T| test.requires((row,)),
        forall|row: &T, r: bool| test.ensures((row,), r) ==> r == chosen(*row),
    ensures
        final(rows)@ == without(old(rows)@, chosen),
{
    let ghost before = rows@;
    let ghost keep = |row: T| !chosen(row);
    let ghost mut done: int = 0;
    let mut i: usize = 0;
    proof {
        reveal(Seq::filter);
        assert(before.take(0).filter(keep) =~= Seq::empty());
        assert(before.skip(0) =~= before);
    }
    while i < rows.len()
        invariant
            forall|row: &T| test.requires((row,)),
            forall|row: &T, r: bool| test.ensures((row,), r) ==> r == chosen(*row),
            keep == (|row: T| !chosen(row)),
            0 <= done <= before.len(),
            i == before.take(done).filter(keep).len(),
            rows@ =~= before.take(done).filter(keep) + before.skip(done),
        decreases before.len() - done,
    {
        proof {
            lemma_filter_step(before, keep, done);
            assert(rows@[i as int] == before[done]);
        }
        if test(&rows[i]) {
            rows.remove(i);
            proof {
                assert(rows@ =~= before.take(done).filter(keep) + before.skip(done + 1));
            }
        } else {
            i += 1;
            proof {
                assert(rows@ =~= before.take(done).filter(keep).push(before[done]) + before.skip(
                    done + 1,
                ));
            }
        }
        proof {
            done = done + 1;
        }
    }
    proof {
        assert(done == before.len());
        assert(before.take(done) =~= before);
        assert(rows@ =~= before.filter(keep));
        assert(before.filter(keep) =~= without(before, chosen));
    }
}

/// Taking out a row that is deleted anyway changes nothing of what is left.
pub proof fn lemma_without_removed<T>(rows: Seq<T>, chosen: spec_fn(T) -> bool, at: int)
    requires
        0 <= at < rows.len(),
        chosen(rows[at]),
    ensures
        without(rows.remove(at), chosen) == without(rows, chosen),
{
    let keep = |row: T| !chosen(row);
    let before = rows.take(at);
    let after = rows.skip(at + 1);
    let one = seq![rows[at]];
    assert(rows =~= before + one + after);
    assert(rows.remove(at) =~= before + after);
    Seq::filter_distributes_over_add(before, one, keep);
    Seq::filter_distributes_over_add(before + one, after, keep);
    Seq::filter_distributes_over_add(before, after, keep);
    assert(one.filter(keep) =~= Seq::empty()) by {
        reveal_with_fuel(Seq::filter, 2);
        assert(one.drop_last() =~= Seq::empty());
    }
}

/// Where the rows that are left stood before, in the same order.
pub open spec fn is_embedding<T>(small: Seq<T>, large: Seq<T>, place: spec_fn(int) -> int) -> bool {
    &&& forall|i: int|
        0 <= i < small.len() ==> 0 <= #[trigger] place(i) < large.len() && small[i]
            == large[place(i)]
    &&& forall|i: int, j: int| 0 <= i < j < small.len() ==> #[trigger] place(i) < #[trigger] place(j)
}

/// What is left keeps its order.
pub proof fn lemma_without_embeds<T>(rows: Seq<T>, chosen: spec_fn(T) -> bool) -> (place: spec_fn(
    int,
) -> int)
    ensures
        is_embedding(without(rows, chosen), rows, place),
    decreases rows.len(),
{
    reveal(Seq::filter);
    let keep = |row: T| !chosen(row);
    if rows.len() == 0 {
        |i: int| 0
    } else {
        let head = rows.drop_last();
        let n = rows.len() - 1;
        let inner = lemma_without_embeds(head, chosen);
        let m = without(head, chosen).len() as int;
        let place = |i: int|
            if i == m {
                n
            } else {
                inner(i)
            };
        assert(without(rows, chosen) =~= if keep(rows.last()) {
            without(head, chosen).push(rows.last())
        } else {
            without(head, chosen)
        });
        assert(is_embedding(without(rows, chosen), rows, place)) by {
            let small = without(rows, chosen);
            assert forall|i: int| 0 <= i < small.len() implies 0 <= #[trigger] place(i) < rows.len()
                && small[i] == rows[place(i)] by {
                if i < m {
                    assert(0 <= inner(i) < head.len());
                    assert(without(head, chosen)[i] == head[inner(i)]);
                }
            }
            assert forall|i: int, j: int| 0 <= i < j < small.len() implies #[trigger] place(i)
                < #[trigger] place(j) by {
                assert(0 <= inner(i) < head.len());
                if j < m {
                    assert(inner(i) < inner(j));
                }
            }
        }
        place
    }
}

/// What is filtered passes the filter.
pub proof fn lemma_filtered<T>(rows: Seq<T>, keep: spec_fn(T) -> bool, at: int)
    requires
        0 <= at < rows.filter(keep).len(),
    ensures
        keep(rows.filter(keep)[at]),
    decreases rows.len(),
{
    reveal(Seq::filter);
    if rows.len() > 0 && at < rows.drop_last().filter(keep).len() {
        lemma_filtered(rows.drop_last(), keep, at);
    }
}

/// Filtering does not repeat anything.
pub proof fn lemma_filter_distinct<T>(rows: Seq<T>, keep: spec_fn(T) -> bool)
    requires
        rows.no_duplicates(),
    ensures
        rows.filter(keep).no_duplicates(),
    decreases rows.len(),
{
    reveal(Seq::filter);
    if rows.len() > 0 {
        let less = rows.drop_last();
        lemma_filter_distinct(less, keep);
        let kept = less.filter(keep);
        assert forall|i: int| 0 <= i < kept.len() implies #[trigger] kept[i] != rows.last() by {
            less.lemma_filter_contains_rev(keep, kept[i]);
            let k = choose|k: int| 0 <= k < less.len() && less[k] == kept[i];
            assert(rows[k] == kept[i]);
        }
    }
}

/// Filters that agree keep the same.
pub proof fn lemma_same_filter<T>(rows: Seq<T>, a: spec_fn(T) -> bool, b: spec_fn(T) -> bool)
    requires
        forall|i: int| 0 <= i < rows.len() ==> a(#[trigger] rows[i]) == b(rows[i]),
    ensures
        rows.filter(a) == rows.filter(b),
    decreases rows.len(),
{
    reveal(Seq::filter);
    if rows.len() > 0 {
        let less = rows.drop_last();
        assert forall|i: int| 0 <= i < less.len() implies a(#[trigger] less[i]) == b(less[i]) by {
            assert(less[i] == rows[i]);
        }
        lemma_same_filter(less, a, b);
        assert(a(rows[rows.len() - 1]) == b(rows[rows.len() - 1]));
    }
}

/// A stricter filter keeps some of what another keeps, in the same order.
pub proof fn lemma_filters_embed<T>(
    rows: Seq<T>,
    strict: spec_fn(T) -> bool,
    loose: spec_fn(T) -> bool,
) -> (place: spec_fn(int) -> int)
    requires
        forall|row: T| #[trigger] strict(row) ==> loose(row),
    ensures
        is_embedding(rows.filter(strict), rows.filter(loose), place),
    decreases rows.len(),
{
    reveal(Seq::filter);
    if rows.len() == 0 {
        |i: int| 0
    } else {
        let head = rows.drop_last();
        let inner = lemma_filters_embed(head, strict, loose);
        let m = head.filter(strict).len() as int;
        let n = head.filter(loose).len() as int;
        let place = |i: int|
            if i == m {
                n
            } else {
                inner(i)
            };
        let small = rows.filter(strict);
        let large = rows.filter(loose);
        assert forall|i: int| 0 <= i < small.len() implies 0 <= #[trigger] place(i) < large.len()
            && small[i] == large[place(i)] by {
            if i < m {
                assert(0 <= inner(i) < n);
                assert(head.filter(strict)[i] == head.filter(loose)[inner(i)]);
            }
        }
        assert forall|i: int, j: int| 0 <= i < j < small.len() implies #[trigger] place(i)
            < #[trigger] place(j) by {
            assert(0 <= inner(i) < n);
            if j < m {
                assert(inner(i) < inner(j));
            }
        }
        place
    }
}

/// Mapping keeps places.
pub proof fn lemma_maps_embed<T, U>(
    small: Seq<T>,
    large: Seq<T>,
    place: spec_fn(int) -> int,
    f: spec_fn(T) -> U,
)
    requires
        is_embedding(small, large, place),
    ensures
        is_embedding(small.map_values(f), large.map_values(f), place),
{
    assert forall|i: int| 0 <= i < small.map_values(f).len() implies 0 <= #[trigger] place(i)
        < large.map_values(f).len() && small.map_values(f)[i] == large.map_values(f)[place(i)] by {
        assert(small[i] == large[place(i)]);
    }
}

/// What is left of two parts, one after the other, is left of the whole.
pub proof fn lemma_joined_embed<T>(
    small: Seq<T>,
    large: Seq<T>,
    place: spec_fn(int) -> int,
    more_small: Seq<T>,
    more_large: Seq<T>,
    more_place: spec_fn(int) -> int,
) -> (joined: spec_fn(int) -> int)
    requires
        is_embedding(small, large, place),
        is_embedding(more_small, more_large, more_place),
    ensures
        is_embedding(small + more_small, large + more_large, joined),
{
    let m = small.len() as int;
    let n = large.len() as int;
    let joined = |i: int|
        if i < m {
            place(i)
        } else {
            n + more_place(i - m)
        };
    let a = small + more_small;
    let b = large + more_large;
    assert forall|i: int| 0 <= i < a.len() implies 0 <= #[trigger] joined(i) < b.len() && a[i]
        == b[joined(i)] by {
        if i < m {
            assert(0 <= place(i) < n);
        } else {
            assert(0 <= more_place(i - m) < more_large.len());
        }
    }
    assert forall|i: int, j: int| 0 <= i < j < a.len() implies #[trigger] joined(i)
        < #[trigger] joined(j) by {
        if i < m {
            assert(0 <= place(i) < n);
            if j < m {
                assert(place(i) < place(j));
            } else {
                assert(0 <= more_place(j - m));
            }
        } else {
            assert(more_place(i - m) < more_place(j - m));
        }
    }
    joined
}

// ---------------------------------------------------------------------------
// Laws
// ---------------------------------------------------------------------------

/// How many of the first `n` rows `keep` chooses.
pub open spec fn count<T>(rows: Seq<T>, keep: spec_fn(T) -> bool, n: int) -> int
    decreases n,
{
    if n <= 0 {
        0
    } else {
        count(rows, keep, n - 1) + if keep(rows[n - 1]) {
            1int
        } else {
            0
        }
    }
}

/// There are as many rows chosen as are counted.
pub proof fn lemma_count<T>(rows: Seq<T>, keep: spec_fn(T) -> bool, n: int)
    requires
        0 <= n <= rows.len(),
    ensures
        rows.take(n).filter(keep).len() == count(rows, keep, n),
        n == rows.len() ==> rows.filter(keep).len() == count(rows, keep, n),
    decreases n,
{
    reveal(Seq::filter);
    if n > 0 {
        lemma_count(rows, keep, n - 1);
        lemma_filter_step(rows, keep, n - 1);
    }
    if n == rows.len() {
        assert(rows.take(n) =~= rows);
    }
}

/// A row that is chosen stands behind those chosen before it, and nothing else
/// does.
pub proof fn lemma_chosen_place<T>(rows: Seq<T>, keep: spec_fn(T) -> bool, i: int)
    requires
        0 <= i < rows.len(),
        keep(rows[i]),
    ensures
        0 <= count(rows, keep, i) < rows.filter(keep).len(),
        rows.filter(keep)[count(rows, keep, i)] == rows[i],
{
    let head = rows.take(i + 1);
    let rest = rows.skip(i + 1);
    assert(rows =~= head + rest);
    Seq::filter_distributes_over_add(head, rest, keep);
    lemma_filter_step(rows, keep, i);
    lemma_count(rows, keep, i);
    assert(head.filter(keep)[count(rows, keep, i)] == rows[i]);
}

/// Counting alike gives the same.
pub proof fn lemma_same_count<T>(rows: Seq<T>, a: spec_fn(T) -> bool, b: spec_fn(T) -> bool, n: int)
    requires
        0 <= n <= rows.len(),
        forall|i: int| 0 <= i < rows.len() ==> a(#[trigger] rows[i]) == b(rows[i]),
    ensures
        count(rows, a, n) == count(rows, b, n),
    decreases n,
{
    if n > 0 {
        lemma_same_count(rows, a, b, n - 1);
        assert(a(rows[n - 1]) == b(rows[n - 1]));
    }
}

/// Whether `after` has the rows of `before` that are not `gone`, in their
/// order, and no others.
pub open spec fn is_rest<T>(before: Seq<T>, after: Seq<T>, gone: spec_fn(T) -> bool) -> bool {
    let kept = |row: T| !gone(row);
    &&& after.len() == count(before, kept, before.len() as int)
    &&& forall|i: int|
        0 <= i < before.len() && !gone(#[trigger] before[i]) ==> after[count(before, kept, i)]
            == before[i]
}

/// What is left without some rows is the rest.
pub proof fn lemma_rest<T>(rows: Seq<T>, chosen: spec_fn(T) -> bool, gone: spec_fn(T) -> bool)
    requires
        forall|i: int| 0 <= i < rows.len() ==> chosen(#[trigger] rows[i]) == gone(rows[i]),
    ensures
        is_rest(rows, without(rows, chosen), gone),
{
    let kept = |row: T| !gone(row);
    lemma_same_filter(rows, |row: T| !chosen(row), kept);
    lemma_count(rows, kept, rows.len() as int);
    assert forall|i: int| 0 <= i < rows.len() && !gone(#[trigger] rows[i]) implies without(
        rows,
        chosen,
    )[count(rows, kept, i)] == rows[i] by {
        assert(kept(rows[i]));
        lemma_chosen_place(rows, kept, i);
    }
}

/// What is chosen is the rest without what is not.
pub proof fn lemma_chosen_rest<T>(rows: Seq<T>, chosen: spec_fn(T) -> bool, gone: spec_fn(T) -> bool)
    requires
        forall|i: int| 0 <= i < rows.len() ==> chosen(#[trigger] rows[i]) == !gone(rows[i]),
    ensures
        is_rest(rows, rows.filter(chosen), gone),
{
    let kept = |row: T| !gone(row);
    lemma_same_filter(rows, chosen, kept);
    lemma_count(rows, kept, rows.len() as int);
    assert forall|i: int| 0 <= i < rows.len() && !gone(#[trigger] rows[i]) implies rows.filter(
        chosen,
    )[count(rows, kept, i)] == rows[i] by {
        assert(kept(rows[i]));
        lemma_chosen_place(rows, kept, i);
    }
}

/// Rows without those that something chooses are the rest without those.
pub proof fn lemma_rest_of<T>(before: Seq<T>, after: Seq<T>, gone: spec_fn(T) -> bool)
    requires
        exists|chosen: spec_fn(T) -> bool|
            after == #[trigger] without(before, chosen) && (forall|row: T| #[trigger]
                chosen(row) == gone(row)),
    ensures
        is_rest(before, after, gone),
{
    let chosen = choose|chosen: spec_fn(T) -> bool|
        after == #[trigger] without(before, chosen) && (forall|row: T| #[trigger]
            chosen(row) == gone(row));
    lemma_rest(before, chosen, gone);
}

/// The rest is the same without rows that are chosen alike.
pub proof fn lemma_rest_alike<T>(before: Seq<T>, after: Seq<T>, gone: spec_fn(T) -> bool)
    requires
        exists|chosen: spec_fn(T) -> bool| #[trigger]
            is_rest(before, after, chosen) && (forall|row: T| #[trigger] chosen(row) == gone(row)),
    ensures
        is_rest(before, after, gone),
{
    let chosen = choose|chosen: spec_fn(T) -> bool| #[trigger]
        is_rest(before, after, chosen) && (forall|row: T| #[trigger] chosen(row) == gone(row));
    let a = |row: T| !chosen(row);
    let b = |row: T| !gone(row);
    assert forall|i: int| 0 <= i < before.len() implies a(#[trigger] before[i]) == b(before[i]) by {
        assert(chosen(before[i]) == gone(before[i]));
    }
    lemma_same_count(before, a, b, before.len() as int);
    assert forall|i: int| 0 <= i < before.len() && !gone(#[trigger] before[i]) implies after[count(
        before,
        b,
        i,
    )] == before[i] by {
        lemma_same_count(before, a, b, i);
        assert(!chosen(before[i]));
    }
}

} // verus!
