//! What the sums over a range count, record by record.

use vstd::prelude::*;

use crate::clock;
use crate::table;
use crate::text;

use super::stats::{
    self, aggregate_on, Book, Calendar, DailyUsage, Entry, Field, Measure, UsageAggregate,
    UsageRange, UsageStats,
};
use super::UsageRecord;

verus! {

/// What one record adds.
pub open spec fn amount(record: UsageRecord, priced: bool, measure: Measure) -> nat {
    match measure {
        Measure::Requests => 1,
        Measure::Prompt => record.prompt as nat,
        Measure::Completion => record.completion as nat,
        Measure::CacheRead => record.cache_read as nat,
        Measure::Total => record.total as nat,
        Measure::Costed => if priced {
            1
        } else {
            0
        },
    }
}

/// What those of the first `n` records add up to that `counted` chooses.
pub open spec fn tally(book: Book, counted: spec_fn(int) -> bool, measure: Measure, n: int) -> nat
    decreases n,
{
    if n <= 0 {
        0
    } else {
        tally(book, counted, measure, n - 1) + if counted(n - 1) {
            amount(book.records@[n - 1], book.priced@[n - 1], measure)
        } else {
            0
        }
    }
}

/// What the records add up to that `counted` chooses.
pub open spec fn total_of(book: Book, counted: spec_fn(int) -> bool, measure: Measure) -> nat {
    tally(book, counted, measure, book.records@.len() as int)
}

/// Whether a record is from `from` or later, and before `to` where there is a
/// `to`.
pub open spec fn is_from(record: UsageRecord, from: int, to: Option<int>) -> bool {
    record.ts >= from && match to {
        Some(to) => record.ts < to,
        None => true,
    }
}

/// When a range begins: 24 hours ago, or so many days ago that today is the
/// last of them. One of all records has no beginning.
pub open spec fn beginning(range: UsageRange, calendar: Calendar) -> Option<int> {
    match range {
        UsageRange::LastDay => Some(calendar.now - 86_400),
        UsageRange::Days(n) => Some(calendar.today_start - (n - 1) * 86_400),
        UsageRange::All => None,
    }
}

/// How long a range is that has a beginning, in seconds.
pub open spec fn length(range: UsageRange) -> int {
    match range {
        UsageRange::LastDay => 86_400,
        UsageRange::Days(n) => n * 86_400,
        UsageRange::All => 0,
    }
}

/// Whether a record is in a range.
pub open spec fn in_range(book: Book, range: UsageRange, calendar: Calendar, i: int) -> bool {
    match beginning(range, calendar) {
        Some(start) => book.records@[i].ts >= start,
        None => true,
    }
}

proof fn lemma_tally(book: Book, keep: spec_fn(usize) -> bool, counted: spec_fn(int) -> bool, measure: Measure, n: nat)
    requires
        n <= book.records@.len() <= usize::MAX,
        forall|i: int|
            0 <= i < book.records@.len() ==> #[trigger] counted(i) == keep(i as usize),
    ensures
        stats::in_measure(stats::summed(book, stats::all_ids(n).filter(keep)), measure) == tally(
            book,
            counted,
            measure,
            n as int,
        ),
    decreases n,
{
    reveal(Seq::filter);
    if n > 0 {
        let m = (n - 1) as nat;
        lemma_tally(book, keep, counted, measure, m);
        let all = stats::all_ids(n);
        assert(all.drop_last() =~= stats::all_ids(m));
        assert(all.last() == m as usize);
        assert(counted(m as int) == keep(m as usize));
        if keep(m as usize) {
            let grown = all.filter(keep);
            assert(grown.drop_last() =~= stats::all_ids(m).filter(keep));
        }
    }
}

/// What a line says is what its sums are.
proof fn lemma_says(aggregate: UsageAggregate, sums: stats::Sums, measure: Measure)
    requires
        aggregate.is(sums),
    ensures
        stats::line_says(aggregate, measure) == stats::in_measure(sums, measure),
{
}

/// Filtering twice is filtering by both.
proof fn lemma_filter_twice(ids: Seq<usize>, a: spec_fn(usize) -> bool, b: spec_fn(usize) -> bool)
    ensures
        ids.filter(a).filter(b) == ids.filter(|i: usize| a(i) && b(i)),
    decreases ids.len(),
{
    reveal(Seq::filter);
    if ids.len() > 0 {
        let rest = ids.drop_last();
        let both = |i: usize| a(i) && b(i);
        lemma_filter_twice(rest, a, b);
        if a(ids.last()) {
            let grown = rest.filter(a).push(ids.last());
            assert(ids.filter(a) == grown);
            assert(grown.drop_last() =~= rest.filter(a));
        }
    }
}

/// The records of a range, as they are picked.
spec fn picked(range: UsageRange, calendar: Calendar) -> Option<int> {
    match range.window(calendar.now as int, calendar.today_start as int) {
        Some((start, _)) => Some(start),
        None => None,
    }
}

// ---------------------------------------------------------------------------
// Laws
// ---------------------------------------------------------------------------

/// A record is counted in the totals exactly where it is in the range: from the
/// last 24 hours, from today and the days before it, so many in all, or from
/// any time. It is counted in the totals before exactly where it is in the time
/// of the same length before that.
pub proof fn a_range_counts_its_records(
    book: Book,
    range: UsageRange,
    account: Option<&str>,
    calendar: &Calendar,
    stats: UsageStats,
    measure: Measure,
)
    requires
        book.wf(),
        call_ensures(aggregate_on, (book, range, account, calendar), stats),
    ensures
        stats::line_says(stats.totals, measure) == total_of(
            book,
            |i: int| in_range(book, range, *calendar, i),
            measure,
        ),
        match beginning(range, *calendar) {
            Some(start) => stats.prev_totals matches Some(before) && stats::line_says(
                before,
                measure,
            ) == total_of(
                book,
                |i: int| is_from(book.records@[i], start - length(range), Some(start)),
                measure,
            ),
            None => stats.prev_totals is None,
        },
{
    let n = book.records@.len();
    let start = picked(range, *calendar);
    let keep = stats::is_between(book, start, None);
    let counted = |i: int| in_range(book, range, *calendar, i);
    assert forall|i: int| 0 <= i < n implies #[trigger] counted(i) == keep(i as usize) by {}
    lemma_tally(book, keep, counted, measure, n);
    lemma_says(stats.totals, stats::summed(book, stats::between(book, start, None)), measure);
    match range.window(calendar.now as int, calendar.today_start as int) {
        Some((start, before)) => {
            let keep = stats::is_between(book, Some(before), Some(start));
            let counted = |i: int|
                is_from(book.records@[i], start - length(range), Some(start));
            assert forall|i: int| 0 <= i < n implies #[trigger] counted(i) == keep(i as usize) by {}
            lemma_tally(book, keep, counted, measure, n);
            lemma_says(
                stats.prev_totals->0,
                stats::summed(book, stats::between(book, Some(before), Some(start))),
                measure,
            );
        },
        None => {},
    }
}

/// A line of a table counts the records of the range that have its key.
proof fn lemma_line(
    book: Book,
    field: Field,
    start: Option<int>,
    more: spec_fn(usize) -> bool,
    entry: Entry,
    counted: spec_fn(int) -> bool,
    measure: Measure,
)
    requires
        book.wf(),
        entry.aggregate.is(
            stats::summed(
                book,
                stats::between(book, start, None).filter(more).filter(
                    stats::having(book, field, entry.key()),
                ),
            ),
        ),
        forall|i: int|
            0 <= i < book.records@.len() ==> #[trigger] counted(i) == (stats::is_between(
                book,
                start,
                None,
            )(i as usize) && more(i as usize) && stats::key_of(book, field, i as usize)
                == entry.key()),
    ensures
        stats::line_says(entry.aggregate, measure) == total_of(book, counted, measure),
{
    let n = book.records@.len();
    let a = stats::is_between(book, start, None);
    let b = stats::having(book, field, entry.key());
    lemma_filter_twice(stats::all_ids(n), a, more);
    let both = |i: usize| a(i) && more(i);
    lemma_filter_twice(stats::all_ids(n), both, b);
    let keep = |i: usize| both(i) && b(i);
    assert forall|i: int| 0 <= i < n implies #[trigger] counted(i) == keep(i as usize) by {}
    lemma_tally(book, keep, counted, measure, n);
    lemma_says(
        entry.aggregate,
        stats::summed(book, stats::all_ids(n).filter(keep)),
        measure,
    );
}

proof fn lemma_filter_true(ids: Seq<usize>, all: spec_fn(usize) -> bool)
    requires
        forall|i: usize| #[trigger] all(i),
    ensures
        ids.filter(all) == ids,
    decreases ids.len(),
{
    reveal(Seq::filter);
    if ids.len() > 0 {
        lemma_filter_true(ids.drop_last(), all);
        assert(all(ids.last()));
        assert(ids.drop_last().push(ids.last()) =~= ids);
    }
}

/// The source of a record: the agent where it names none.
pub open spec fn source_of(record: UsageRecord) -> Seq<char> {
    if record.src@ == ""@ {
        "agent"@
    } else {
        record.src@
    }
}

/// The line of a source counts the calls of the range that came from it.
pub proof fn a_source_counts_its_calls(
    book: Book,
    range: UsageRange,
    account: Option<&str>,
    calendar: &Calendar,
    stats: UsageStats,
    s: int,
    measure: Measure,
)
    requires
        book.wf(),
        call_ensures(aggregate_on, (book, range, account, calendar), stats),
        0 <= s < stats.sources@.len(),
    ensures
        stats::line_says(stats.sources@[s].aggregate, measure) == total_of(
            book,
            |i: int|
                in_range(book, range, *calendar, i) && source_of(book.records@[i])
                    == stats.sources@[s].src@,
            measure,
        ),
{
    reveal_strlit("");
    assert(""@ =~= Seq::empty());
    let start = picked(range, *calendar);
    let all = |i: usize| true;
    let ids = stats::between(book, start, None);
    lemma_filter_true(ids, all);
    let entry = stats::source_entries(stats.sources@)[s];
    assert(entry.aggregate.is(
        stats::summed(book, ids.filter(stats::having(book, Field::Source, entry.key()))),
    ));
    let counted = |i: int|
        in_range(book, range, *calendar, i) && source_of(book.records@[i])
            == stats.sources@[s].src@;
    assert forall|i: int| 0 <= i < book.records@.len() implies #[trigger] counted(i) == (
    stats::is_between(book, start, None)(i as usize) && all(i as usize) && stats::key_of(
        book,
        Field::Source,
        i as usize,
    ) == entry.key()) by {
        if book.records@[i].src@.len() == 0 {
            assert(book.records@[i].src@ =~= ""@);
        }
    }
    lemma_line(book, Field::Source, start, all, entry, counted, measure);
}

/// The line of a model within a source counts the calls of the range that came
/// from the source and went to the model.
pub proof fn a_model_counts_its_calls(
    book: Book,
    range: UsageRange,
    account: Option<&str>,
    calendar: &Calendar,
    stats: UsageStats,
    s: int,
    m: int,
    measure: Measure,
)
    requires
        book.wf(),
        call_ensures(aggregate_on, (book, range, account, calendar), stats),
        0 <= s < stats.sources@.len(),
        0 <= m < stats.sources@[s].models@.len(),
    ensures
        ({
            let model = stats.sources@[s].models@[m];
            stats::line_says(model.aggregate, measure) == total_of(
                book,
                |i: int|
                    in_range(book, range, *calendar, i) && source_of(book.records@[i])
                        == stats.sources@[s].src@ && book.records@[i].provider@ == model.provider@
                        && book.records@[i].model@ == model.model@,
                measure,
            )
        }),
{
    reveal_strlit("");
    assert(""@ =~= Seq::empty());
    let start = picked(range, *calendar);
    let src = stats.sources@[s].src@;
    let of = stats::having(book, Field::Source, (src, Seq::empty()));
    let model = stats.sources@[s].models@[m];
    let members = stats::of_source(book, stats::between(book, start, None), src);
    assert(stats::are_models(book, members, stats.sources@[s].models@));
    let entry = stats::model_entries(stats.sources@[s].models@)[m];
    assert(entry.aggregate.is(
        stats::summed(book, members.filter(stats::having(book, Field::Model, entry.key()))),
    ));
    let counted = |i: int|
        in_range(book, range, *calendar, i) && source_of(book.records@[i]) == src
            && book.records@[i].provider@ == model.provider@ && book.records@[i].model@
            == model.model@;
    assert forall|i: int| 0 <= i < book.records@.len() implies #[trigger] counted(i) == (
    stats::is_between(book, start, None)(i as usize) && of(i as usize) && stats::key_of(
        book,
        Field::Model,
        i as usize,
    ) == entry.key()) by {
        if book.records@[i].src@.len() == 0 {
            assert(book.records@[i].src@ =~= ""@);
        }
    }
    lemma_line(book, Field::Model, start, of, entry, counted, measure);
}

/// The line of a kind within a source counts the calls of the range that came
/// from the source and are of the kind. Those without a kind are in none.
pub proof fn a_kind_counts_its_calls(
    book: Book,
    range: UsageRange,
    account: Option<&str>,
    calendar: &Calendar,
    stats: UsageStats,
    s: int,
    k: int,
    measure: Measure,
)
    requires
        book.wf(),
        call_ensures(aggregate_on, (book, range, account, calendar), stats),
        0 <= s < stats.sources@.len(),
        0 <= k < stats.sources@[s].kinds@.len(),
    ensures
        ({
            let kind = stats.sources@[s].kinds@[k];
            &&& kind.kind@.len() > 0
            &&& stats::line_says(kind.aggregate, measure) == total_of(
                book,
                |i: int|
                    in_range(book, range, *calendar, i) && source_of(book.records@[i])
                        == stats.sources@[s].src@ && book.records@[i].kind@ == kind.kind@,
                measure,
            )
        }),
{
    reveal_strlit("");
    assert(""@ =~= Seq::empty());
    let start = picked(range, *calendar);
    let src = stats.sources@[s].src@;
    let of = stats::having(book, Field::Source, (src, Seq::empty()));
    let named = |i: usize| book.records@[i as int].kind@.len() > 0;
    let more = |i: usize| of(i) && named(i);
    let kind = stats.sources@[s].kinds@[k];
    let ids = stats::between(book, start, None);
    let members = stats::of_source(book, ids, src);
    assert(stats::are_kinds(book, members, stats.sources@[s].kinds@));
    lemma_filter_twice(ids, of, named);
    assert(stats::of_a_kind(book, members) == ids.filter(more));
    let entry = stats::kind_entries(stats.sources@[s].kinds@)[k];
    let own = ids.filter(more).filter(stats::having(book, Field::Kind, entry.key()));
    assert(own.len() > 0 && entry.aggregate.is(stats::summed(book, own)));
    assert(kind.kind@.len() > 0) by {
        lemma_filter_twice(ids, more, stats::having(book, Field::Kind, entry.key()));
        table::lemma_filtered(
            ids,
            |i: usize| more(i) && stats::having(book, Field::Kind, entry.key())(i),
            0,
        );
    }
    let counted = |i: int|
        in_range(book, range, *calendar, i) && source_of(book.records@[i]) == src
            && book.records@[i].kind@ == kind.kind@;
    assert forall|i: int| 0 <= i < book.records@.len() implies #[trigger] counted(i) == (
    stats::is_between(book, start, None)(i as usize) && more(i as usize) && stats::key_of(
        book,
        Field::Kind,
        i as usize,
    ) == entry.key()) by {
        if book.records@[i].src@.len() == 0 {
            assert(book.records@[i].src@ =~= ""@);
        }
    }
    lemma_line(book, Field::Kind, start, more, entry, counted, measure);
}

/// The line of an account counts the calls of the range that it paid for.
/// There are such lines only where no account was asked for.
pub proof fn an_account_counts_its_calls(
    book: Book,
    range: UsageRange,
    account: Option<&str>,
    calendar: &Calendar,
    stats: UsageStats,
    a: int,
    measure: Measure,
)
    requires
        book.wf(),
        call_ensures(aggregate_on, (book, range, account, calendar), stats),
        0 <= a < stats.accounts@.len(),
    ensures
        account is None,
        stats::line_says(stats.accounts@[a].aggregate, measure) == total_of(
            book,
            |i: int|
                in_range(book, range, *calendar, i) && book.records@[i].acct@
                    == stats.accounts@[a].acct@,
            measure,
        ),
{
    let start = picked(range, *calendar);
    let all = |i: usize| true;
    let ids = stats::between(book, start, None);
    lemma_filter_true(ids, all);
    let entry = stats::account_entries(stats.accounts@)[a];
    assert(entry.aggregate.is(
        stats::summed(book, ids.filter(stats::having(book, Field::Account, entry.key()))),
    ));
    let counted = |i: int|
        in_range(book, range, *calendar, i) && book.records@[i].acct@ == stats.accounts@[a].acct@;
    assert forall|i: int| 0 <= i < book.records@.len() implies #[trigger] counted(i) == (
    stats::is_between(book, start, None)(i as usize) && all(i as usize) && stats::key_of(
        book,
        Field::Account,
        i as usize,
    ) == entry.key()) by {}
    lemma_line(book, Field::Account, start, all, entry, counted, measure);
}

/// Every call of the range stands in the line of its source, there in the line
/// of its model, in that of its kind where it has one, and in that of its
/// account where no account was asked for.
pub proof fn every_call_has_its_lines(
    book: Book,
    range: UsageRange,
    account: Option<&str>,
    calendar: &Calendar,
    stats: UsageStats,
    i: int,
)
    requires
        book.wf(),
        call_ensures(aggregate_on, (book, range, account, calendar), stats),
        0 <= i < book.records@.len(),
        in_range(book, range, *calendar, i),
    ensures
        exists|s: int|
            {
                let record = book.records@[i];
                &&& 0 <= s < stats.sources@.len()
                &&& (#[trigger] stats.sources@[s]).src@ == source_of(record)
                &&& exists|m: int|
                    0 <= m < stats.sources@[s].models@.len() && (
                    #[trigger] stats.sources@[s].models@[m]).provider@ == record.provider@
                        && stats.sources@[s].models@[m].model@ == record.model@
                &&& record.kind@.len() > 0 ==> exists|k: int|
                    0 <= k < stats.sources@[s].kinds@.len() && (
                    #[trigger] stats.sources@[s].kinds@[k]).kind@ == record.kind@
            },
        account is None ==> exists|a: int|
            0 <= a < stats.accounts@.len() && (#[trigger] stats.accounts@[a]).acct@
                == book.records@[i].acct@,
{
    reveal_strlit("");
    assert(""@ =~= Seq::empty());
    let record = book.records@[i];
    if record.src@.len() == 0 {
        assert(record.src@ =~= ""@);
    }
    let start = picked(range, *calendar);
    let keep = stats::is_between(book, start, None);
    let ids = stats::between(book, start, None);
    let all = stats::all_ids(book.records@.len());
    assert(all[i] == i as usize);
    assert(keep(i as usize));
    all.lemma_filter_contains(keep, i);
    let k = choose|k: int| 0 <= k < ids.len() && ids[k] == i as usize;
    let entries = stats::source_entries(stats.sources@);
    assert(stats::has_line(entries, stats::key_of(book, Field::Source, ids[k])));
    let s = choose|s: int|
        0 <= s < entries.len() && (#[trigger] entries[s]).key() == stats::key_of(
            book,
            Field::Source,
            ids[k],
        );
    let source = stats.sources@[s];
    assert(source.src@ == source_of(record));
    let of = stats::having(book, Field::Source, (source.src@, Seq::empty()));
    let members = stats::of_source(book, ids, source.src@);
    assert(of(ids[k]));
    ids.lemma_filter_contains(of, k);
    let p = choose|p: int| 0 <= p < members.len() && members[p] == i as usize;
    assert(stats::are_models(book, members, source.models@));
    let models = stats::model_entries(source.models@);
    assert(stats::has_line(models, stats::key_of(book, Field::Model, members[p])));
    let m = choose|m: int|
        0 <= m < models.len() && (#[trigger] models[m]).key() == stats::key_of(
            book,
            Field::Model,
            members[p],
        );
    assert(source.models@[m].provider@ == record.provider@ && source.models@[m].model@
        == record.model@);
    if record.kind@.len() > 0 {
        let named = |i: usize| book.records@[i as int].kind@.len() > 0;
        assert(named(members[p]));
        members.lemma_filter_contains(named, p);
        let some = stats::of_a_kind(book, members);
        let q = choose|q: int| 0 <= q < some.len() && some[q] == i as usize;
        assert(stats::are_kinds(book, members, source.kinds@));
        let kinds = stats::kind_entries(source.kinds@);
        assert(stats::has_line(kinds, stats::key_of(book, Field::Kind, some[q])));
        let t = choose|t: int|
            0 <= t < kinds.len() && (#[trigger] kinds[t]).key() == stats::key_of(
                book,
                Field::Kind,
                some[q],
            );
        assert(source.kinds@[t].kind@ == record.kind@);
    }
    if account is None {
        let accounts = stats::account_entries(stats.accounts@);
        assert(stats::has_line(accounts, stats::key_of(book, Field::Account, ids[k])));
        let a = choose|a: int|
            0 <= a < accounts.len() && (#[trigger] accounts[a]).key() == stats::key_of(
                book,
                Field::Account,
                ids[k],
            );
        assert(stats.accounts@[a].acct@ == record.acct@);
    }
}

/// The agent is the first source and the others stand by name. Models and
/// accounts stand with the largest total first.
pub proof fn lines_stand_in_order(
    book: Book,
    range: UsageRange,
    account: Option<&str>,
    calendar: &Calendar,
    stats: UsageStats,
    s: int,
    i: int,
    j: int,
)
    requires
        call_ensures(aggregate_on, (book, range, account, calendar), stats),
        0 <= s < stats.sources@.len(),
        0 <= i < j,
    ensures
        j < stats.sources@.len() ==> stats.sources@[j].src@ != "agent"@ && (stats.sources@[i].src@
            == "agent"@ || text::precedes(stats.sources@[i].src@, stats.sources@[j].src@)),
        j < stats.sources@[s].models@.len() ==> stats.sources@[s].models@[i].aggregate.total
            >= stats.sources@[s].models@[j].aggregate.total,
        j < stats.sources@[s].kinds@.len() ==> stats.sources@[s].kinds@[i].aggregate.total
            >= stats.sources@[s].kinds@[j].aggregate.total,
        j < stats.accounts@.len() ==> stats.accounts@[i].aggregate.total
            >= stats.accounts@[j].aggregate.total,
{
    let start = picked(range, *calendar);
    let ids = stats::between(book, start, None);
    if j < stats.sources@.len() {
        assert(stats::source_before(stats.sources@[i].src@, stats.sources@[j].src@));
    }
    let source = stats.sources@[s];
    let members = stats::of_source(book, ids, source.src@);
    assert(stats::are_models(book, members, source.models@));
    assert(stats::are_kinds(book, members, source.kinds@));
    let models = stats::model_entries(source.models@);
    if j < models.len() {
        assert(stats::outranks(models[i], models[j]));
    }
    let kinds = stats::kind_entries(source.kinds@);
    if j < kinds.len() {
        assert(stats::outranks(kinds[i], kinds[j]));
    }
    let accounts = stats::account_entries(stats.accounts@);
    if j < accounts.len() {
        assert(stats::outranks(accounts[i], accounts[j]));
    }
}

/// What a day says in one measure.
pub open spec fn day_says(day: DailyUsage, measure: Measure) -> nat {
    match measure {
        Measure::Requests => day.requests as nat,
        Measure::Prompt => day.prompt as nat,
        Measure::Completion => day.completion as nat,
        Measure::CacheRead => day.cache_read as nat,
        Measure::Total => day.total as nat,
        Measure::Costed => day.costed@.len(),
    }
}

/// Whether a record is counted under a date: it is of that local day, and not
/// from before the days that are shown.
pub open spec fn is_of_day(book: Book, calendar: Calendar, i: int, date: Seq<char>) -> bool {
    book.records@[i].ts >= calendar.today_start - 363 * 86_400 && match book.days@[i] {
        Some(day) => day@ == date,
        None => false,
    }
}

/// The line of a day counts the records of that local day, whatever the range.
/// The days stand in order, no more than 364 of them.
pub proof fn a_day_counts_its_records(
    book: Book,
    range: UsageRange,
    account: Option<&str>,
    calendar: &Calendar,
    stats: UsageStats,
    d: int,
    measure: Measure,
)
    requires
        book.wf(),
        call_ensures(aggregate_on, (book, range, account, calendar), stats),
        0 <= d < stats.daily@.len(),
    ensures
        stats.daily@.len() <= 364,
        d > 0 ==> text::precedes(stats.daily@[d - 1].date@, stats.daily@[d].date@),
        day_says(stats.daily@[d], measure) == total_of(
            book,
            |i: int| is_of_day(book, *calendar, i, stats.daily@[d].date@),
            measure,
        ),
{
    let n = book.records@.len();
    let floor = calendar.today_start - 363 * 86_400;
    let ids = stats::shown(book, floor);
    let days = choose|days: Seq<DailyUsage>| #[trigger]
        stats::are_days(book, ids, calendar.window@, days) && stats.daily@ == stats::last_days(
            days,
        );
    let off = days.len() - stats.daily@.len();
    assert(stats.daily@[d] == days[off + d]);
    if d > 0 {
        assert(stats.daily@[d - 1] == days[off + d - 1]);
    }
    let date = stats.daily@[d].date@;
    let a = stats::is_shown(book, floor);
    let b = stats::having(book, Field::Day, (date, Seq::empty()));
    let members = stats::of_day(book, ids, date);
    assert(days[off + d].is(stats::summed(book, members)));
    lemma_filter_twice(stats::all_ids(n), a, b);
    let keep = |i: usize| a(i) && b(i);
    let counted = |i: int| is_of_day(book, *calendar, i, date);
    assert forall|i: int| 0 <= i < n implies #[trigger] counted(i) == keep(i as usize) by {}
    lemma_tally(book, keep, counted, measure, n);
}

/// A record that is not from before the days shown, and whose local day can be
/// told, has a line for its day, unless 364 later days have one. So has each
/// day that is shown for its own sake.
pub proof fn every_day_has_its_line(
    book: Book,
    range: UsageRange,
    account: Option<&str>,
    calendar: &Calendar,
    stats: UsageStats,
    i: int,
    w: int,
)
    requires
        book.wf(),
        call_ensures(aggregate_on, (book, range, account, calendar), stats),
    ensures
        0 <= i < book.records@.len() && book.records@[i].ts >= calendar.today_start - 363 * 86_400
            && book.days@[i] is Some ==> is_day_shown(stats.daily@, book.days@[i]->0@),
        0 <= w < calendar.window@.len() ==> is_day_shown(stats.daily@, calendar.window@[w]@),
{
    let n = book.records@.len();
    let floor = calendar.today_start - 363 * 86_400;
    let ids = stats::shown(book, floor);
    let days = choose|days: Seq<DailyUsage>| #[trigger]
        stats::are_days(book, ids, calendar.window@, days) && stats.daily@ == stats::last_days(
            days,
        );
    if 0 <= i < n && book.records@[i].ts >= floor && book.days@[i] is Some {
        let keep = stats::is_shown(book, floor);
        let all = stats::all_ids(n);
        assert(all[i] == i as usize && keep(i as usize));
        all.lemma_filter_contains(keep, i);
        let k = choose|k: int| 0 <= k < ids.len() && ids[k] == i as usize;
        assert(stats::has_day_line(days, stats::key_of(book, Field::Day, ids[k]).0));
        lemma_day_shown(book, ids, calendar.window@, days, book.days@[i]->0@);
    }
    if 0 <= w < calendar.window@.len() {
        assert(stats::has_day_line(days, calendar.window@[w]@));
        lemma_day_shown(book, ids, calendar.window@, days, calendar.window@[w]@);
    }
}

/// Whether a date has a line, or 364 later ones have.
pub open spec fn is_day_shown(daily: Seq<DailyUsage>, date: Seq<char>) -> bool {
    ||| exists|d: int| 0 <= d < daily.len() && (#[trigger] daily[d]).date@ == date
    ||| daily.len() == 364 && text::precedes(date, daily[0].date@)
}

proof fn lemma_day_shown(
    book: Book,
    ids: Seq<usize>,
    window: Seq<String>,
    days: Seq<DailyUsage>,
    date: Seq<char>,
)
    requires
        stats::are_days(book, ids, window, days),
        stats::has_day_line(days, date),
    ensures
        is_day_shown(stats::last_days(days), date),
{
    let d = choose|d: int| 0 <= d < days.len() && (#[trigger] days[d]).date@ == date;
    let daily = stats::last_days(days);
    let off = days.len() - daily.len();
    if d >= off {
        assert(daily[d - off].date@ == date);
    } else {
        assert(daily[0] == days[off]);
        assert(text::precedes(days[d].date@, days[off].date@));
    }
}

/// The records whose costs are added are those of the range that have a price,
/// in their order.
pub proof fn priced_calls_are_costed(
    book: Book,
    range: UsageRange,
    account: Option<&str>,
    calendar: &Calendar,
    stats: UsageStats,
)
    requires
        book.wf(),
        call_ensures(aggregate_on, (book, range, account, calendar), stats),
    ensures
        forall|i: int|
            0 <= i < book.records@.len() ==> stats.totals.costed@.contains(i as usize) == (
            #[trigger] book.priced@[i] && in_range(book, range, *calendar, i)),
        forall|a: int, b: int|
            0 <= a < b < stats.totals.costed@.len() ==> (#[trigger] stats.totals.costed@[a]) < (
            #[trigger] stats.totals.costed@[b]),
{
    let start = picked(range, *calendar);
    let keep = stats::is_between(book, start, None);
    lemma_costed(book, keep, book.records@.len());
    let costed = stats::summed(book, stats::all_ids(book.records@.len()).filter(keep)).costed;
    assert(stats.totals.costed@ == costed);
    assert forall|i: int| 0 <= i < book.records@.len() implies stats.totals.costed@.contains(
        i as usize,
    ) == (#[trigger] book.priced@[i] && in_range(book, range, *calendar, i)) by {
        assert(keep(i as usize) == in_range(book, range, *calendar, i));
        lemma_costed_one(book, keep, i);
    }
}

proof fn lemma_costed_one(book: Book, keep: spec_fn(usize) -> bool, i: int)
    requires
        0 <= i < book.records@.len() <= usize::MAX,
    ensures
        stats::summed(book, stats::all_ids(book.records@.len()).filter(keep)).costed.contains(
            i as usize,
        ) == (book.priced@[i] && keep(i as usize)),
{
    lemma_costed(book, keep, book.records@.len());
}

proof fn lemma_costed(book: Book, keep: spec_fn(usize) -> bool, n: nat)
    requires
        n <= book.records@.len() <= usize::MAX,
    ensures
        ({
            let costed = stats::summed(book, stats::all_ids(n).filter(keep)).costed;
            &&& forall|k: int| 0 <= k < costed.len() ==> (#[trigger] costed[k]) < n
            &&& forall|i: int|
                0 <= i < n ==> costed.contains(i as usize) == (#[trigger] book.priced@[i] && keep(
                    i as usize,
                ))
            &&& forall|a: int, b: int|
                0 <= a < b < costed.len() ==> (#[trigger] costed[a]) < (#[trigger] costed[b])
        }),
    decreases n,
{
    reveal(Seq::filter);
    if n > 0 {
        let m = (n - 1) as nat;
        lemma_costed(book, keep, m);
        let all = stats::all_ids(n);
        assert(all.drop_last() =~= stats::all_ids(m));
        assert(all.last() == m as usize);
        let before = stats::summed(book, stats::all_ids(m).filter(keep)).costed;
        let after = stats::summed(book, all.filter(keep)).costed;
        if keep(m as usize) {
            assert(all.filter(keep).drop_last() =~= stats::all_ids(m).filter(keep));
            assert(after == if book.priced@[m as int] {
                before.push(m as usize)
            } else {
                before
            });
        } else {
            assert(after == before);
        }
        let last = keep(m as usize) && book.priced@[m as int];
        assert(!before.contains(m as usize)) by {
            if before.contains(m as usize) {
                let k = choose|k: int| 0 <= k < before.len() && before[k] == m as usize;
                assert(before[k] < m);
            }
        }
        assert forall|i: int| 0 <= i < n implies after.contains(i as usize) == (
        #[trigger] book.priced@[i] && keep(i as usize)) by {
            if i == m {
                if last {
                    assert(after[before.len() as int] == i as usize);
                    assert(after.contains(i as usize));
                }
            } else {
                assert(before.contains(i as usize) == (book.priced@[i] && keep(i as usize)));
                if before.contains(i as usize) {
                    let k = choose|k: int| 0 <= k < before.len() && before[k] == i as usize;
                    assert(after[k] == i as usize);
                }
                if after.contains(i as usize) {
                    let k = choose|k: int| 0 <= k < after.len() && after[k] == i as usize;
                    assert(k < before.len());
                    assert(before[k] == i as usize);
                }
            }
        }
    }
}

/// A range is told by the word for it: the
/// words for 24 hours, 7 days, 30 days, and anything else for all time.
pub proof fn ranges_are_named(value: &str, range: UsageRange)
    requires
        call_ensures(UsageRange::parse, (value,), range),
    ensures
        range == UsageRange::LastDay <==> value@ == "1d"@ || value@ == "24h"@ || value@ == "today"@,
        range == UsageRange::Days(7) <==> value@ == "7d"@,
        range == UsageRange::Days(30) <==> value@ == "30d"@,
        range matches UsageRange::Days(n) ==> n == 7 || n == 30,
{
    reveal_strlit("1d");
    reveal_strlit("24h");
    reveal_strlit("today");
    reveal_strlit("7d");
    reveal_strlit("30d");
    assert("1d"@[0] == '1' && "7d"@[0] == '7' && "30d"@[0] == '3' && "24h"@[0] == '2'
        && "today"@[0] == 't');
    assert("1d"@.len() == 2 && "7d"@.len() == 2 && "30d"@.len() == 3 && "24h"@.len() == 3);
}

/// The time of the first call is that of the earliest record there is, whatever
/// the range.
pub proof fn the_first_call_is_the_earliest(
    book: Book,
    range: UsageRange,
    account: Option<&str>,
    calendar: &Calendar,
    stats: UsageStats,
    i: int,
)
    requires
        call_ensures(aggregate_on, (book, range, account, calendar), stats),
        0 <= i < book.records@.len(),
    ensures
        stats.first_ts matches Some(first) && first <= book.records@[i].ts && exists|k: int|
            0 <= k < book.records@.len() && (#[trigger] book.records@[k]).ts == first,
{
}

/// The days that are shown are 364, one after the other, and the last begins at
/// the start that is given.
pub proof fn days_are_shown_up_to_today(start: i64, starts: Vec<i64>, k: int)
    requires
        clock::in_calendar(start as int),
        call_ensures(stats::shown_starts, (start,), starts),
        0 <= k < 364,
    ensures
        starts@.len() == 364,
        starts@.last() == start,
        k > 0 ==> starts@[k] == starts@[k - 1] + 86_400,
{
    assert(starts@[363] == start - (364 - 1 - 363) * 86_400);
    assert(starts@[k] == start - (364 - 1 - k) * 86_400);
    if k > 0 {
        assert(starts@[k - 1] == start - (364 - 1 - (k - 1)) * 86_400);
    }
}

} // verus!
