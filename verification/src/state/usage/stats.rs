//! What the ledger adds up to: totals for a range, by source, by model, by
//! account and by day.
//!
//! What a call cost is a fraction of a dollar and is not added up here. Each
//! sum lists the records that have a price, in the order in which their costs
//! are to be added.

use vstd::prelude::*;

use crate::clock::{self, local_date, local_midnight};
use crate::text::{self, comes_before, push_decimal, same_text};

use super::UsageRecord;

verus! {

/// The seconds of a day.
pub const DAY: i64 = 86_400;

/// How many days the daily sums cover, today included.
pub const DAYS_SHOWN: usize = 364;

/// The source of a record that names none.
pub const AGENT: &'static str = "agent";

/// What some records add up to.
#[derive(Debug)]
pub struct UsageAggregate {
    pub requests: u64,
    pub prompt: u64,
    pub completion: u64,
    pub cache_read: u64,
    pub total: u64,
    /// How many of the records have a price.
    pub costed_requests: u64,
    /// The records that have a price, in the order in which their costs are to
    /// be added.
    pub costed: Vec<usize>,
}

/// What the records of one local day add up to.
#[derive(Debug)]
pub struct DailyUsage {
    pub date: String,
    pub requests: u64,
    pub prompt: u64,
    pub completion: u64,
    pub cache_read: u64,
    pub total: u64,
    /// The records that have a price, in the order in which their costs are to
    /// be added.
    pub costed: Vec<usize>,
}

#[derive(Debug)]
pub struct ModelUsage {
    pub provider: String,
    pub model: String,
    pub aggregate: UsageAggregate,
}

/// A kind of call within a source. It is counted in the source as well.
#[derive(Debug)]
pub struct KindUsage {
    pub kind: String,
    pub aggregate: UsageAggregate,
    pub models: Vec<ModelUsage>,
}

/// A source of calls, with the models it used.
#[derive(Debug)]
pub struct SourceUsage {
    pub src: String,
    pub aggregate: UsageAggregate,
    pub models: Vec<ModelUsage>,
    pub kinds: Vec<KindUsage>,
}

/// The calls of one account.
#[derive(Debug)]
pub struct AccountUsage {
    pub acct: String,
    pub aggregate: UsageAggregate,
}

#[derive(Debug)]
pub struct UsageStats {
    pub range: String,
    pub totals: UsageAggregate,
    /// The window of the same length before, where the range has a start.
    pub prev_totals: Option<UsageAggregate>,
    /// The last days, oldest first.
    pub daily: Vec<DailyUsage>,
    pub sources: Vec<SourceUsage>,
    /// Empty where only one account was asked for.
    pub accounts: Vec<AccountUsage>,
    pub first_ts: Option<i64>,
}

/// What is looked at.
#[derive(Debug, Clone, Copy, PartialEq, Eq, Structural)]
pub enum UsageRange {
    /// The last 24 hours.
    LastDay,
    /// Today and the days before it, so many in all.
    Days(u32),
    All,
}

/// The range a word stands for.
pub open spec fn range_of(value: Seq<char>) -> UsageRange {
    if value == "1d"@ || value == "24h"@ || value == "today"@ {
        UsageRange::LastDay
    } else if value == "7d"@ {
        UsageRange::Days(7)
    } else if value == "30d"@ {
        UsageRange::Days(30)
    } else {
        UsageRange::All
    }
}

impl UsageRange {
    /// The range a word stands for.
    pub fn parse(value: &str) -> (range: Self)
        ensures
            range == range_of(value@),
    {
        if same_text(value, "1d") || same_text(value, "24h") || same_text(value, "today") {
            UsageRange::LastDay
        } else if same_text(value, "7d") {
            UsageRange::Days(7)
        } else if same_text(value, "30d") {
            UsageRange::Days(30)
        } else {
            UsageRange::All
        }
    }

    /// How the range is written.
    pub open spec fn name(self) -> Seq<char> {
        match self {
            UsageRange::LastDay => "1d"@,
            UsageRange::Days(n) => text::decimal(n as nat) + "d"@,
            UsageRange::All => "all"@,
        }
    }

    /// How the range is written.
    pub fn label(&self) -> (label: String)
        ensures
            label@ == self.name(),
    {
        match self {
            UsageRange::LastDay => "1d".to_owned(),
            UsageRange::Days(n) => {
                let mut label = String::new();
                push_decimal(&mut label, *n as u64);
                label.append("d");
                label
            },
            UsageRange::All => "all".to_owned(),
        }
    }

    /// Whether the range is one: it has at least one day.
    pub open spec fn valid(self) -> bool {
        self matches UsageRange::Days(n) ==> n >= 1
    }

    /// When the range starts, and when the window of the same length before it
    /// does.
    pub open spec fn window(self, now: int, today_start: int) -> Option<(int, int)> {
        match self {
            UsageRange::LastDay => Some((now - DAY, now - 2 * DAY)),
            UsageRange::Days(n) => {
                let start = today_start - (n - 1) * DAY;
                Some((start, start - n * DAY))
            },
            UsageRange::All => None,
        }
    }
}

/// The records that are added up.
#[derive(Clone, Copy)]
pub struct Book<'a> {
    pub records: &'a Vec<UsageRecord>,
    /// Which of them have a price.
    pub priced: &'a Vec<bool>,
    /// The local day of each, as it is written. A day that does not start at
    /// midnight, or does so twice, is none.
    pub days: &'a Vec<Option<String>>,
}

/// Sums over some records.
#[verifier::ext_equal]
pub struct Sums {
    pub requests: nat,
    pub prompt: nat,
    pub completion: nat,
    pub cache_read: nat,
    pub total: nat,
    pub costed: Seq<usize>,
}

/// What the records `ids` add up to.
pub open spec fn added(records: Seq<UsageRecord>, priced: Seq<bool>, ids: Seq<usize>) -> Sums
    decreases ids.len(),
{
    if ids.len() == 0 {
        Sums {
            requests: 0,
            prompt: 0,
            completion: 0,
            cache_read: 0,
            total: 0,
            costed: Seq::empty(),
        }
    } else {
        let before = added(records, priced, ids.drop_last());
        let record = records[ids.last() as int];
        Sums {
            requests: before.requests + 1,
            prompt: before.prompt + record.prompt as nat,
            completion: before.completion + record.completion as nat,
            cache_read: before.cache_read + record.cache_read as nat,
            total: before.total + record.total as nat,
            costed: if priced[ids.last() as int] {
                before.costed.push(ids.last())
            } else {
                before.costed
            },
        }
    }
}

/// What the records `ids` of `book` add up to.
pub open spec fn summed(book: Book, ids: Seq<usize>) -> Sums {
    added(book.records@, book.priced@, ids)
}

/// The numbers of `n` records.
pub open spec fn all_ids(n: nat) -> Seq<usize> {
    Seq::new(n, |i: int| i as usize)
}

impl<'a> Book<'a> {
    /// The lists belong together.
    pub open spec fn wf(&self) -> bool {
        &&& self.priced@.len() == self.records@.len()
        &&& self.days@.len() == self.records@.len()
        &&& self.records@.len() <= usize::MAX
    }

    /// Whether `ids` are numbers of records.
    pub open spec fn holds(&self, ids: Seq<usize>) -> bool {
        forall|k: int| 0 <= k < ids.len() ==> (#[trigger] ids[k]) < self.records@.len()
    }
}

/// Whether counters are large enough.
pub open spec fn fits(sums: Sums) -> bool {
    &&& sums.prompt <= u64::MAX
    &&& sums.completion <= u64::MAX
    &&& sums.cache_read <= u64::MAX
    &&& sums.total <= u64::MAX
    &&& sums.requests <= u64::MAX
}

/// Whether one sum is no more than another.
pub open spec fn at_most(a: Sums, b: Sums) -> bool {
    &&& a.prompt <= b.prompt
    &&& a.completion <= b.completion
    &&& a.cache_read <= b.cache_read
    &&& a.total <= b.total
    &&& a.requests <= b.requests
}

impl UsageAggregate {
    /// Whether these are the sums.
    pub open spec fn is(&self, sums: Sums) -> bool {
        &&& self.requests == sums.requests
        &&& self.prompt == sums.prompt
        &&& self.completion == sums.completion
        &&& self.cache_read == sums.cache_read
        &&& self.total == sums.total
        &&& self.costed_requests == sums.costed.len()
        &&& self.costed@ == sums.costed
    }

    /// No records at all.
    pub fn new() -> (aggregate: Self)
        ensures
            aggregate.requests == 0 && aggregate.prompt == 0 && aggregate.completion == 0
                && aggregate.cache_read == 0 && aggregate.total == 0 && aggregate.costed_requests
                == 0 && aggregate.costed@.len() == 0,
    {
        UsageAggregate {
            requests: 0,
            prompt: 0,
            completion: 0,
            cache_read: 0,
            total: 0,
            costed_requests: 0,
            costed: Vec::new(),
        }
    }

    /// Adds a record.
    pub fn absorb(&mut self, record: &UsageRecord, at: usize, priced: bool)
        requires
            old(self).requests < u64::MAX,
            old(self).costed_requests < u64::MAX,
            old(self).prompt + record.prompt <= u64::MAX,
            old(self).completion + record.completion <= u64::MAX,
            old(self).cache_read + record.cache_read <= u64::MAX,
            old(self).total + record.total <= u64::MAX,
        ensures
            final(self).requests == old(self).requests + 1,
            final(self).prompt == old(self).prompt + record.prompt,
            final(self).completion == old(self).completion + record.completion,
            final(self).cache_read == old(self).cache_read + record.cache_read,
            final(self).total == old(self).total + record.total,
            priced ==> final(self).costed_requests == old(self).costed_requests + 1
                && final(self).costed@ == old(self).costed@.push(at),
            !priced ==> final(self).costed_requests == old(self).costed_requests
                && final(self).costed@ == old(self).costed@,
    {
        self.requests = self.requests + 1;
        self.prompt = self.prompt + record.prompt;
        self.completion = self.completion + record.completion;
        self.cache_read = self.cache_read + record.cache_read;
        self.total = self.total + record.total;
        if priced {
            self.costed_requests = self.costed_requests + 1;
            self.costed.push(at);
        }
    }
}

/// A shorter list adds up to no more.
proof fn lemma_prefix_at_most(book: Book, ids: Seq<usize>, n: int)
    requires
        0 <= n <= ids.len(),
    ensures
        at_most(summed(book, ids.take(n)), summed(book, ids)),
        summed(book, ids).requests == ids.len(),
        summed(book, ids).costed.len() <= ids.len(),
    decreases ids.len(),
{
    if n == ids.len() {
        assert(ids.take(n) =~= ids);
        if ids.len() > 0 {
            lemma_prefix_at_most(book, ids.drop_last(), n - 1);
        }
    } else {
        lemma_prefix_at_most(book, ids.drop_last(), n);
        assert(ids.drop_last().take(n) =~= ids.take(n));
    }
}

/// Some of the records add up to no more than all of them.
proof fn lemma_part_at_most(book: Book, ids: Seq<usize>, keep: spec_fn(usize) -> bool)
    ensures
        at_most(summed(book, ids.filter(keep)), summed(book, ids)),
        book.holds(ids) ==> book.holds(ids.filter(keep)),
    decreases ids.len(),
{
    reveal(Seq::filter);
    if ids.len() > 0 {
        let rest = ids.drop_last();
        lemma_part_at_most(book, rest, keep);
        if keep(ids.last()) {
            assert(ids.filter(keep) =~= rest.filter(keep).push(ids.last()));
            assert(ids.filter(keep).drop_last() =~= rest.filter(keep));
        }
        if book.holds(ids) {
            assert forall|k: int| 0 <= k < rest.len() implies (#[trigger] rest[k])
                < book.records@.len() by {
                assert(rest[k] == ids[k]);
            }
            assert(ids.last() == ids[ids.len() - 1]);
            assert forall|k: int| 0 <= k < ids.filter(keep).len() implies (#[trigger] ids.filter(
                keep,
            )[k]) < book.records@.len() by {
                if k < rest.filter(keep).len() {
                    assert(ids.filter(keep)[k] == rest.filter(keep)[k]);
                }
            }
        }
    }
}

/// Adds up the records `ids`.
pub fn sum_of(book: Book, ids: &Vec<usize>) -> (aggregate: UsageAggregate)
    requires
        book.wf(),
        book.holds(ids@),
        fits(summed(book, ids@)),
    ensures
        aggregate.is(summed(book, ids@)),
{
    let mut aggregate = UsageAggregate::new();
    let mut k: usize = 0;
    proof {
        assert(ids@.take(0) =~= Seq::empty());
        assert(aggregate.costed@ =~= Seq::empty());
    }
    while k < ids.len()
        invariant
            k <= ids@.len(),
            book.wf(),
            book.holds(ids@),
            fits(summed(book, ids@)),
            aggregate.is(summed(book, ids@.take(k as int))),
        decreases ids@.len() - k,
    {
        let i: usize = ids[k];
        proof {
            assert(i < book.records@.len());
            let longer = ids@.take(k + 1);
            assert(longer.drop_last() =~= ids@.take(k as int));
            assert(longer.last() == i);
            lemma_prefix_at_most(book, ids@, k + 1);
            lemma_prefix_at_most(book, ids@.take(k as int), k as int);
        }
        aggregate.absorb(&book.records[i], i, book.priced[i]);
        k += 1;
    }
    assert(ids@.take(ids@.len() as int) =~= ids@);
    aggregate
}

// ---------------------------------------------------------------------------
// Groups
// ---------------------------------------------------------------------------

/// What records are grouped by.
#[derive(Debug, Clone, Copy, PartialEq, Eq, Structural)]
pub enum Field {
    Account,
    Source,
    /// The provider and the model.
    Model,
    Kind,
    /// The local day. The records have one.
    Day,
}

/// What a record is grouped by, in two parts.
pub open spec fn key_of(book: Book, field: Field, i: usize) -> (Seq<char>, Seq<char>) {
    let record = book.records@[i as int];
    match field {
        Field::Account => (record.acct@, Seq::empty()),
        Field::Source => (
            if record.src@.len() == 0 {
                AGENT@
            } else {
                record.src@
            },
            Seq::empty(),
        ),
        Field::Model => (record.provider@, record.model@),
        Field::Kind => (record.kind@, Seq::empty()),
        Field::Day => (
            match book.days@[i as int] {
                Some(day) => day@,
                None => Seq::empty(),
            },
            Seq::empty(),
        ),
    }
}

/// Whether a key comes before another: by the first part, then by the second.
pub open spec fn key_before(a: (Seq<char>, Seq<char>), b: (Seq<char>, Seq<char>)) -> bool {
    text::precedes(a.0, b.0) || (a.0 == b.0 && text::precedes(a.1, b.1))
}

/// The records of a key.
pub open spec fn having(book: Book, field: Field, key: (Seq<char>, Seq<char>)) -> spec_fn(
    usize,
) -> bool {
    |i: usize| key_of(book, field, i) == key
}

/// The records of one key, in order.
pub struct Group {
    pub first: String,
    pub second: String,
    pub members: Vec<usize>,
}

impl Group {
    pub open spec fn key(&self) -> (Seq<char>, Seq<char>) {
        (self.first@, self.second@)
    }
}

/// The first part of what a record is grouped by.
fn first_key<'a>(book: Book<'a>, field: Field, i: usize) -> (key: &'a str)
    requires
        book.wf(),
        i < book.records@.len(),
    ensures
        key@ == key_of(book, field, i).0,
{
    match field {
        Field::Account => book.records[i].acct.as_str(),
        Field::Source => {
            let src = book.records[i].src.as_str();
            if src.unicode_len() == 0 {
                AGENT
            } else {
                src
            }
        },
        Field::Model => book.records[i].provider.as_str(),
        Field::Kind => book.records[i].kind.as_str(),
        Field::Day => match &book.days[i] {
            Some(day) => day.as_str(),
            None => {
                proof {
                    reveal_strlit("");
                    assert(""@ =~= Seq::empty());
                }
                ""
            },
        },
    }
}

/// The second part of what a record is grouped by.
fn second_key<'a>(book: Book<'a>, field: Field, i: usize) -> (key: &'a str)
    requires
        book.wf(),
        i < book.records@.len(),
    ensures
        key@ == key_of(book, field, i).1,
{
    if field == Field::Model {
        book.records[i].model.as_str()
    } else {
        proof {
            reveal_strlit("");
            assert(""@ =~= Seq::empty());
        }
        ""
    }
}

/// Keys are ordered.
proof fn lemma_key_total(a: (Seq<char>, Seq<char>), b: (Seq<char>, Seq<char>))
    ensures
        key_before(a, b) ==> !key_before(b, a),
        key_before(a, b) || key_before(b, a) || a == b,
        !key_before(a, a),
{
    text::lemma_precedes_total(a.0, b.0);
    text::lemma_precedes_total(a.1, b.1);
    text::lemma_precedes_total(a.0, a.0);
    text::lemma_precedes_total(a.1, a.1);
}

proof fn lemma_key_transitive(
    a: (Seq<char>, Seq<char>),
    b: (Seq<char>, Seq<char>),
    c: (Seq<char>, Seq<char>),
)
    requires
        key_before(a, b),
        key_before(b, c),
    ensures
        key_before(a, c),
{
    if text::precedes(a.0, b.0) && text::precedes(b.0, c.0) {
        text::lemma_precedes_transitive(a.0, b.0, c.0);
    }
    if text::precedes(a.1, b.1) && text::precedes(b.1, c.1) {
        text::lemma_precedes_transitive(a.1, b.1, c.1);
    }
}

/// Whether the groups stand in the order of their keys.
pub open spec fn keys_ascend(groups: Seq<Group>) -> bool {
    forall|i: int, j: int|
        0 <= i < j < groups.len() ==> key_before(
            #[trigger] groups[i].key(),
            #[trigger] groups[j].key(),
        )
}

/// Whether each group holds the records of its key, in order.
pub open spec fn members_right(book: Book, field: Field, ids: Seq<usize>, groups: Seq<Group>) -> bool {
    forall|g: int|
        0 <= g < groups.len() ==> (#[trigger] groups[g]).members@ == ids.filter(
            having(book, field, groups[g].key()),
        )
}

/// Whether a key has a group.
pub open spec fn has_key(groups: Seq<Group>, key: (Seq<char>, Seq<char>)) -> bool {
    exists|g: int| 0 <= g < groups.len() && (#[trigger] groups[g]).key() == key
}

/// Whether every record has a group.
pub open spec fn all_grouped(book: Book, field: Field, ids: Seq<usize>, groups: Seq<Group>) -> bool {
    forall|k: int| 0 <= k < ids.len() ==> has_key(groups, key_of(book, field, #[trigger] ids[k]))
}

/// Whether every group has a record.
pub open spec fn none_empty(groups: Seq<Group>) -> bool {
    forall|g: int| 0 <= g < groups.len() ==> (#[trigger] groups[g]).members@.len() > 0
}

/// Where a key stands among groups: how many groups come before it.
fn place_of(groups: &Vec<Group>, first: &str, second: &str) -> (at: (usize, bool))
    requires
        keys_ascend(groups@),
    ensures
        at.0 <= groups@.len(),
        forall|g: int|
            0 <= g < at.0 ==> key_before((#[trigger] groups@[g]).key(), (first@, second@)),
        at.1 ==> at.0 < groups@.len() && groups@[at.0 as int].key() == (first@, second@),
        !at.1 ==> forall|g: int|
            at.0 <= g < groups@.len() ==> key_before((first@, second@), (#[trigger] groups@[g]).key()),
{
    let mut n: usize = groups.len();
    while n > 0
        invariant
            n <= groups@.len(),
            keys_ascend(groups@),
            forall|g: int|
                n <= g < groups@.len() ==> key_before(
                    (first@, second@),
                    (#[trigger] groups@[g]).key(),
                ),
        decreases n,
    {
        let group = &groups[n - 1];
        let ghost key = (first@, second@);
        if same_text(group.first.as_str(), first) && same_text(group.second.as_str(), second) {
            proof {
                assert(group.key() == key);
                assert forall|g: int| 0 <= g < n - 1 implies key_before(
                    (#[trigger] groups@[g]).key(),
                    key,
                ) by {
                    assert(key_before(groups@[g].key(), groups@[n - 1].key()));
                }
            }
            return (n - 1, true);
        }
        let before = comes_before(group.first.as_str(), first) || (same_text(
            group.first.as_str(),
            first,
        ) && comes_before(group.second.as_str(), second));
        if before {
            proof {
                assert forall|g: int| 0 <= g < n implies key_before(
                    (#[trigger] groups@[g]).key(),
                    key,
                ) by {
                    if g < n - 1 {
                        assert(key_before(groups@[g].key(), groups@[n - 1].key()));
                        lemma_key_transitive(groups@[g].key(), groups@[n - 1].key(), key);
                    }
                }
            }
            return (n, false);
        }
        proof {
            lemma_key_total(group.key(), key);
        }
        n -= 1;
    }
    (0, false)
}

/// Groups the records `ids`, in the order of the keys.
pub fn grouped(book: Book, field: Field, ids: &Vec<usize>) -> (groups: Vec<Group>)
    requires
        book.wf(),
        book.holds(ids@),
    ensures
        keys_ascend(groups@),
        members_right(book, field, ids@, groups@),
        all_grouped(book, field, ids@, groups@),
        none_empty(groups@),
{
    let mut groups: Vec<Group> = Vec::new();
    let mut k: usize = 0;
    while k < ids.len()
        invariant
            k <= ids@.len(),
            book.wf(),
            book.holds(ids@),
            keys_ascend(groups@),
            members_right(book, field, ids@.take(k as int), groups@),
            all_grouped(book, field, ids@.take(k as int), groups@),
            none_empty(groups@),
        decreases ids@.len() - k,
    {
        let i: usize = ids[k];
        assert(i < book.records@.len());
        let first = first_key(book, field, i);
        let second = second_key(book, field, i);
        let ghost key = key_of(book, field, i);
        let ghost before = groups@;
        let ghost seen = ids@.take(k as int);
        let ghost now = ids@.take(k + 1);
        let (at, there) = place_of(&groups, first, second);
        if there {
            let group = &mut groups[at];
            group.members.push(i);
            proof {
                assert(groups@ =~= before.update(at as int, groups@[at as int]));
                assert forall|g: int| 0 <= g < groups@.len() implies (#[trigger] groups@[g]).key()
                    == before[g].key() by {}
                lemma_group_grown(book, field, ids@, k as int, before, groups@);
            }
        } else {
            let mut members: Vec<usize> = Vec::new();
            members.push(i);
            groups.insert(
                at,
                Group { first: first.to_owned(), second: second.to_owned(), members },
            );
            proof {
                assert(groups@ =~= before.insert(at as int, groups@[at as int]));
                lemma_group_added(book, field, ids@, k as int, before, groups@, at as int);
            }
        }
        k += 1;
    }
    assert(ids@.take(ids@.len() as int) =~= ids@);
    groups
}

/// The records of a key after one record more.
proof fn lemma_having_step(
    book: Book,
    field: Field,
    ids: Seq<usize>,
    k: int,
    key: (Seq<char>, Seq<char>),
)
    requires
        0 <= k < ids.len(),
    ensures
        ids.take(k + 1).filter(having(book, field, key)) == if key_of(book, field, ids[k]) == key {
            ids.take(k).filter(having(book, field, key)).push(ids[k])
        } else {
            ids.take(k).filter(having(book, field, key))
        },
{
    reveal(Seq::filter);
    assert(ids.take(k + 1).drop_last() =~= ids.take(k));
}

proof fn lemma_group_grown(
    book: Book,
    field: Field,
    ids: Seq<usize>,
    k: int,
    before: Seq<Group>,
    after: Seq<Group>,
)
    requires
        0 <= k < ids.len(),
        keys_ascend(before),
        members_right(book, field, ids.take(k), before),
        all_grouped(book, field, ids.take(k), before),
        none_empty(before),
        after.len() == before.len(),
        forall|g: int| 0 <= g < after.len() ==> (#[trigger] after[g]).key() == before[g].key(),
        exists|at: int|
            {
                &&& 0 <= at < before.len()
                &&& (#[trigger] before[at]).key() == key_of(book, field, ids[k])
                &&& after[at].members@ == before[at].members@.push(ids[k])
                &&& forall|g: int|
                    0 <= g < before.len() && g != at ==> #[trigger] after[g] == before[g]
            },
    ensures
        keys_ascend(after),
        members_right(book, field, ids.take(k + 1), after),
        all_grouped(book, field, ids.take(k + 1), after),
        none_empty(after),
{
    let key = key_of(book, field, ids[k]);
    let at = choose|at: int|
        {
            &&& 0 <= at < before.len()
            &&& (#[trigger] before[at]).key() == key
            &&& after[at].members@ == before[at].members@.push(ids[k])
            &&& forall|g: int| 0 <= g < before.len() && g != at ==> #[trigger] after[g] == before[g]
        };
    assert forall|i: int, j: int| 0 <= i < j < after.len() implies key_before(
        #[trigger] after[i].key(),
        #[trigger] after[j].key(),
    ) by {
        assert(key_before(before[i].key(), before[j].key()));
    }
    assert forall|g: int| 0 <= g < after.len() implies (#[trigger] after[g]).members@ == ids.take(
        k + 1,
    ).filter(having(book, field, after[g].key())) by {
        lemma_having_step(book, field, ids, k, after[g].key());
        assert(before[g].members@ == ids.take(k).filter(having(book, field, before[g].key())));
        if g != at {
            assert(after[g] == before[g]);
            lemma_key_total(before[g].key(), key);
            if g < at {
                assert(key_before(before[g].key(), before[at].key()));
            } else {
                assert(key_before(before[at].key(), before[g].key()));
            }
        }
    }
    assert forall|n: int| 0 <= n < ids.take(k + 1).len() implies has_key(
        after,
        key_of(book, field, #[trigger] ids.take(k + 1)[n]),
    ) by {
        if n < k {
            assert(ids.take(k + 1)[n] == ids.take(k)[n]);
            assert(has_key(before, key_of(book, field, ids.take(k)[n])));
            let g = choose|g: int|
                0 <= g < before.len() && (#[trigger] before[g]).key() == key_of(
                    book,
                    field,
                    ids.take(k)[n],
                );
            assert(after[g].key() == before[g].key());
        } else {
            assert(after[at].key() == before[at].key());
        }
    }
    assert forall|g: int| 0 <= g < after.len() implies (#[trigger] after[g]).members@.len() > 0 by {
        assert(before[g].members@.len() > 0);
        if g != at {
            assert(after[g] == before[g]);
        }
    }
}

proof fn lemma_group_added(
    book: Book,
    field: Field,
    ids: Seq<usize>,
    k: int,
    before: Seq<Group>,
    after: Seq<Group>,
    at: int,
)
    requires
        0 <= k < ids.len(),
        keys_ascend(before),
        members_right(book, field, ids.take(k), before),
        all_grouped(book, field, ids.take(k), before),
        none_empty(before),
        0 <= at <= before.len(),
        after == before.insert(at, after[at]),
        after[at].key() == key_of(book, field, ids[k]),
        after[at].members@ == seq![ids[k]],
        forall|g: int|
            0 <= g < at ==> key_before(
                (#[trigger] before[g]).key(),
                key_of(book, field, ids[k]),
            ),
        forall|g: int|
            at <= g < before.len() ==> key_before(
                key_of(book, field, ids[k]),
                (#[trigger] before[g]).key(),
            ),
    ensures
        keys_ascend(after),
        members_right(book, field, ids.take(k + 1), after),
        all_grouped(book, field, ids.take(k + 1), after),
        none_empty(after),
{
    let key = key_of(book, field, ids[k]);
    let old_place = |g: int|
        if g < at {
            g
        } else {
            g - 1
        };
    assert(after.len() == before.len() + 1);
    assert forall|g: int| 0 <= g < after.len() && g != at implies #[trigger] after[g]
        == before[old_place(g)] by {}
    assert forall|i: int, j: int| 0 <= i < j < after.len() implies key_before(
        #[trigger] after[i].key(),
        #[trigger] after[j].key(),
    ) by {
        if i == at {
            assert(after[j] == before[j - 1]);
        } else if j == at {
            assert(after[i] == before[i]);
        } else {
            assert(after[i] == before[old_place(i)]);
            assert(after[j] == before[old_place(j)]);
            assert(key_before(before[old_place(i)].key(), before[old_place(j)].key()));
        }
    }
    assert forall|g: int| 0 <= g < after.len() implies (#[trigger] after[g]).members@ == ids.take(
        k + 1,
    ).filter(having(book, field, after[g].key())) by {
        lemma_having_step(book, field, ids, k, after[g].key());
        if g == at {
            let seen = ids.take(k);
            assert(seen.filter(having(book, field, key)) =~= Seq::empty()) by {
                if seen.filter(having(book, field, key)).len() > 0 {
                    lemma_filtered_source(seen, having(book, field, key), 0);
                    let n = choose|n: int|
                        0 <= n < seen.len() && seen[n] == seen.filter(having(book, field, key))[0];
                    assert(key_of(book, field, seen[n]) == key);
                    assert(has_key(before, key_of(book, field, seen[n])));
                    let h = choose|h: int| 0 <= h < before.len() && (#[trigger] before[h]).key() == key;
                    lemma_key_total(before[h].key(), key);
                }
            }
        } else {
            let h = old_place(g);
            assert(after[g] == before[h]);
            assert(before[h].members@ == ids.take(k).filter(having(book, field, before[h].key())));
            lemma_key_total(before[h].key(), key);
        }
    }
    assert forall|n: int| 0 <= n < ids.take(k + 1).len() implies has_key(
        after,
        key_of(book, field, #[trigger] ids.take(k + 1)[n]),
    ) by {
        if n < k {
            assert(ids.take(k + 1)[n] == ids.take(k)[n]);
            assert(has_key(before, key_of(book, field, ids.take(k)[n])));
            let g = choose|g: int|
                0 <= g < before.len() && (#[trigger] before[g]).key() == key_of(
                    book,
                    field,
                    ids.take(k)[n],
                );
            let h = if g < at {
                g
            } else {
                g + 1
            };
            assert(after[h] == before[g]);
        } else {
            assert(after[at].key() == key);
        }
    }
    assert forall|g: int| 0 <= g < after.len() implies (#[trigger] after[g]).members@.len() > 0 by {
        if g != at {
            assert(after[g] == before[old_place(g)]);
            assert(before[old_place(g)].members@.len() > 0);
        }
    }
}

/// What passes a filter passes it, and was there before.
proof fn lemma_filtered_source(ids: Seq<usize>, keep: spec_fn(usize) -> bool, at: int)
    requires
        0 <= at < ids.filter(keep).len(),
    ensures
        keep(ids.filter(keep)[at]),
        exists|n: int| 0 <= n < ids.len() && ids[n] == ids.filter(keep)[at],
    decreases ids.len(),
{
    reveal(Seq::filter);
    let rest = ids.drop_last();
    if at < rest.filter(keep).len() {
        lemma_filtered_source(rest, keep, at);
        let n = choose|n: int| 0 <= n < rest.len() && rest[n] == rest.filter(keep)[at];
        assert(ids[n] == ids.filter(keep)[at]);
    } else {
        assert(ids[ids.len() - 1] == ids.filter(keep)[at]);
    }
}

// ---------------------------------------------------------------------------
// Tables
// ---------------------------------------------------------------------------

/// A line of a table: a key and what its records add up to.
pub struct Entry {
    pub first: Seq<char>,
    pub second: Seq<char>,
    pub aggregate: UsageAggregate,
}

impl Entry {
    pub open spec fn key(self) -> (Seq<char>, Seq<char>) {
        (self.first, self.second)
    }
}

/// Whether each line adds up the records of its key, and has some.
pub open spec fn sums_right(book: Book, field: Field, ids: Seq<usize>, entries: Seq<Entry>) -> bool {
    forall|e: int|
        0 <= e < entries.len() ==> {
            let members = ids.filter(having(book, field, (#[trigger] entries[e]).key()));
            members.len() > 0 && entries[e].aggregate.is(summed(book, members))
        }
}

/// Whether a key has a line.
pub open spec fn has_line(entries: Seq<Entry>, key: (Seq<char>, Seq<char>)) -> bool {
    exists|e: int| 0 <= e < entries.len() && (#[trigger] entries[e]).key() == key
}

/// Whether every record is counted in some line.
pub open spec fn all_listed(book: Book, field: Field, ids: Seq<usize>, entries: Seq<Entry>) -> bool {
    forall|k: int| 0 <= k < ids.len() ==> has_line(entries, key_of(book, field, #[trigger] ids[k]))
}

/// Whether a line comes before another where the larger total comes first, and
/// the smaller key among the same totals.
pub open spec fn outranks(a: Entry, b: Entry) -> bool {
    a.aggregate.total > b.aggregate.total || (a.aggregate.total == b.aggregate.total && key_before(
        a.key(),
        b.key(),
    ))
}

/// Whether the larger total comes first, and the smaller key among the same
/// totals.
pub open spec fn largest_first(entries: Seq<Entry>) -> bool {
    forall|i: int, j: int|
        0 <= i < j < entries.len() ==> outranks(#[trigger] entries[i], #[trigger] entries[j])
}

/// Whether `entries` is the table of the records `ids` by `field`, largest
/// total first.
pub open spec fn is_ranking(book: Book, field: Field, ids: Seq<usize>, entries: Seq<Entry>) -> bool {
    &&& largest_first(entries)
    &&& sums_right(book, field, ids, entries)
    &&& all_listed(book, field, ids, entries)
}

/// A line of a table with the records it counts.
struct Line {
    group: Group,
    aggregate: UsageAggregate,
}

impl Line {
    spec fn entry(self) -> Entry {
        Entry { first: self.group.first@, second: self.group.second@, aggregate: self.aggregate }
    }
}

spec fn entries_of(lines: Seq<Line>) -> Seq<Entry> {
    lines.map_values(|line: Line| line.entry())
}

/// Whether the lines hold the records they count.
spec fn lines_right(book: Book, field: Field, ids: Seq<usize>, lines: Seq<Line>) -> bool {
    forall|e: int|
        0 <= e < lines.len() ==> {
            let group = (#[trigger] lines[e]).group;
            group.members@ == ids.filter(having(book, field, group.key())) && group.members@.len()
                > 0 && lines[e].aggregate.is(summed(book, group.members@))
        }
}

/// Whether a list has a line for a key.
spec fn lines_have(lines: Seq<Line>, key: (Seq<char>, Seq<char>)) -> bool {
    exists|e: int| 0 <= e < lines.len() && (#[trigger] lines[e]).group.key() == key
}

/// The table of the records `ids` by `field`, largest total first.
fn ranked(book: Book, field: Field, ids: &Vec<usize>) -> (lines: Vec<Line>)
    requires
        book.wf(),
        book.holds(ids@),
        fits(summed(book, ids@)),
    ensures
        is_ranking(book, field, ids@, entries_of(lines@)),
        lines_right(book, field, ids@, lines@),
{
    let groups = grouped(book, field, ids);
    let ghost given = groups@;
    let mut left = groups;
    let mut lines: Vec<Line> = Vec::new();
    let ghost mut done: int = 0;
    while left.len() > 0
        invariant
            0 <= done <= given.len(),
            left@ =~= given.skip(done),
            book.wf(),
            book.holds(ids@),
            fits(summed(book, ids@)),
            keys_ascend(given),
            members_right(book, field, ids@, given),
            none_empty(given),
            lines_right(book, field, ids@, lines@),
            largest_first(entries_of(lines@)),
            forall|e: int, g: int|
                0 <= e < lines@.len() && done <= g < given.len() ==> key_before(
                    (#[trigger] lines@[e]).group.key(),
                    (#[trigger] given[g]).key(),
                ),
            forall|g: int| 0 <= g < done ==> lines_have(lines@, (#[trigger] given[g]).key()),
        decreases left@.len(),
    {
        let group = left.remove(0);
        let ghost before = lines@;
        proof {
            assert(group == given[done]);
            assert(left@ =~= given.skip(done + 1));
            lemma_part_at_most(book, ids@, having(book, field, group.key()));
        }
        let aggregate = sum_of(book, &group.members);
        let mut at: usize = lines.len();
        while at > 0 && lines[at - 1].aggregate.total < aggregate.total
            invariant
                at <= lines@.len(),
                lines@ == before,
                forall|e: int|
                    at <= e < lines@.len() ==> (#[trigger] lines@[e]).aggregate.total
                        < aggregate.total,
            decreases at,
        {
            at -= 1;
        }
        let ghost line = Line { group, aggregate };
        proof {
            assert forall|e: int| 0 <= e < at implies (#[trigger] before[e]).aggregate.total
                >= aggregate.total by {
                if e < at - 1 {
                    let entries = entries_of(before);
                    assert(outranks(entries[e], entries[at - 1]));
                }
            }
        }
        lines.insert(at, Line { group, aggregate });
        proof {
            assert(lines@ =~= before.insert(at as int, line));
            lemma_line_added(book, field, ids@, before, at as int, line);
            assert forall|e: int, g: int|
                0 <= e < lines@.len() && done + 1 <= g < given.len() implies key_before(
                (#[trigger] lines@[e]).group.key(),
                (#[trigger] given[g]).key(),
            ) by {
                if e < at {
                    assert(lines@[e] == before[e]);
                } else if e > at {
                    assert(lines@[e] == before[e - 1]);
                } else {
                    assert(key_before(given[done].key(), given[g].key()));
                }
            }
            assert forall|g: int| 0 <= g < done + 1 implies lines_have(
                lines@,
                (#[trigger] given[g]).key(),
            ) by {
                if g == done {
                    assert(lines@[at as int].group.key() == given[g].key());
                } else {
                    assert(lines_have(before, given[g].key()));
                    let e = choose|e: int|
                        0 <= e < before.len() && (#[trigger] before[e]).group.key()
                            == given[g].key();
                    let f = if e < at {
                        e
                    } else {
                        e + 1
                    };
                    assert(lines@[f] == before[e]);
                }
            }
            done = done + 1;
        }
    }
    proof {
        lemma_table(book, field, ids@, given, lines@);
    }
    lines
}

proof fn lemma_line_added(
    book: Book,
    field: Field,
    ids: Seq<usize>,
    before: Seq<Line>,
    at: int,
    line: Line,
)
    requires
        0 <= at <= before.len(),
        lines_right(book, field, ids, before),
        largest_first(entries_of(before)),
        line.group.members@ == ids.filter(having(book, field, line.group.key())),
        line.group.members@.len() > 0,
        line.aggregate.is(summed(book, line.group.members@)),
        forall|e: int| 0 <= e < at ==> (#[trigger] before[e]).aggregate.total >= line.aggregate.total,
        forall|e: int| at <= e < before.len() ==> (#[trigger] before[e]).aggregate.total < line.aggregate.total,
        forall|e: int|
            0 <= e < before.len() ==> key_before(
                (#[trigger] before[e]).group.key(),
                line.group.key(),
            ),
    ensures
        lines_right(book, field, ids, before.insert(at, line)),
        largest_first(entries_of(before.insert(at, line))),
{
    let after = before.insert(at, line);
    assert(after.len() == before.len() + 1);
    let old_place = |e: int|
        if e < at {
            e
        } else {
            e - 1
        };
    assert forall|e: int| 0 <= e < after.len() implies {
        let group = (#[trigger] after[e]).group;
        group.members@ == ids.filter(having(book, field, group.key())) && group.members@.len() > 0
            && after[e].aggregate.is(summed(book, group.members@))
    } by {
        if e != at {
            assert(after[e] == before[old_place(e)]);
        }
    }
    let entries = entries_of(after);
    let older = entries_of(before);
    assert forall|i: int, j: int| 0 <= i < j < entries.len() implies outranks(
        #[trigger] entries[i],
        #[trigger] entries[j],
    ) by {
        if i == at {
            assert(after[j] == before[j - 1]);
        } else if j == at {
            assert(after[i] == before[i]);
            assert(key_before(before[i].group.key(), line.group.key()));
        } else {
            assert(after[i] == before[old_place(i)]);
            assert(after[j] == before[old_place(j)]);
            assert(outranks(older[old_place(i)], older[old_place(j)]));
        }
    }
}

/// The lines of all groups make the table.
proof fn lemma_table(
    book: Book,
    field: Field,
    ids: Seq<usize>,
    groups: Seq<Group>,
    lines: Seq<Line>,
)
    requires
        all_grouped(book, field, ids, groups),
        lines_right(book, field, ids, lines),
        forall|g: int| 0 <= g < groups.len() ==> lines_have(lines, (#[trigger] groups[g]).key()),
    ensures
        sums_right(book, field, ids, entries_of(lines)),
        all_listed(book, field, ids, entries_of(lines)),
{
    let entries = entries_of(lines);
    assert forall|e: int| 0 <= e < entries.len() implies {
        let members = ids.filter(having(book, field, (#[trigger] entries[e]).key()));
        members.len() > 0 && entries[e].aggregate.is(summed(book, members))
    } by {
        assert(entries[e] == lines[e].entry());
        assert(lines[e].group.key() == entries[e].key());
    }
    assert forall|k: int| 0 <= k < ids.len() implies has_line(
        entries,
        key_of(book, field, #[trigger] ids[k]),
    ) by {
        let key = key_of(book, field, ids[k]);
        assert(has_key(groups, key));
        let g = choose|g: int| 0 <= g < groups.len() && (#[trigger] groups[g]).key() == key;
        assert(lines_have(lines, groups[g].key()));
        let e = choose|e: int| 0 <= e < lines.len() && (#[trigger] lines[e]).group.key() == key;
        assert(entries[e].key() == key);
    }
}

/// The table of models that `models` is.
pub open spec fn model_entries(models: Seq<ModelUsage>) -> Seq<Entry> {
    models.map_values(
        |m: ModelUsage|
            Entry { first: m.provider@, second: m.model@, aggregate: m.aggregate },
    )
}

/// Whether `models` is the table of the records `ids` by provider and model.
pub open spec fn are_models(book: Book, ids: Seq<usize>, models: Seq<ModelUsage>) -> bool {
    is_ranking(book, Field::Model, ids, model_entries(models))
}

/// The table of the records `ids` by provider and model.
fn models_of(book: Book, ids: &Vec<usize>) -> (models: Vec<ModelUsage>)
    requires
        book.wf(),
        book.holds(ids@),
        fits(summed(book, ids@)),
    ensures
        are_models(book, ids@, models@),
{
    let mut lines = ranked(book, Field::Model, ids);
    let ghost given = lines@;
    let mut models: Vec<ModelUsage> = Vec::new();
    while lines.len() > 0
        invariant
            models@.len() + lines@.len() == given.len(),
            lines@ =~= given.skip(models@.len() as int),
            forall|k: int|
                0 <= k < models@.len() ==> (#[trigger] models@[k]).provider
                    == given[k].group.first && models@[k].model == given[k].group.second
                    && models@[k].aggregate == given[k].aggregate,
        decreases lines@.len(),
    {
        let line = lines.remove(0);
        models.push(
            ModelUsage {
                provider: line.group.first,
                model: line.group.second,
                aggregate: line.aggregate,
            },
        );
    }
    assert(model_entries(models@) =~= entries_of(given));
    models
}

/// The records `ids` that are of some kind.
pub open spec fn of_a_kind(book: Book, ids: Seq<usize>) -> Seq<usize> {
    ids.filter(|i: usize| book.records@[i as int].kind@.len() > 0)
}

/// The table of kinds that `kinds` is.
pub open spec fn kind_entries(kinds: Seq<KindUsage>) -> Seq<Entry> {
    kinds.map_values(
        |k: KindUsage| Entry { first: k.kind@, second: Seq::empty(), aggregate: k.aggregate },
    )
}

/// Whether `kinds` is the table of the records `ids` by kind, with the table
/// of models of each.
pub open spec fn are_kinds(book: Book, ids: Seq<usize>, kinds: Seq<KindUsage>) -> bool {
    &&& is_ranking(book, Field::Kind, of_a_kind(book, ids), kind_entries(kinds))
    &&& forall|k: int|
        0 <= k < kinds.len() ==> are_models(
            book,
            of_a_kind(book, ids).filter(
                having(book, Field::Kind, ((#[trigger] kinds[k]).kind@, Seq::empty())),
            ),
            kinds[k].models@,
        )
}

/// Picks the records that are of some kind.
fn pick_kinds(book: Book, ids: &Vec<usize>) -> (picked: Vec<usize>)
    requires
        book.wf(),
        book.holds(ids@),
    ensures
        picked@ == of_a_kind(book, ids@),
{
    let ghost keep = |i: usize| book.records@[i as int].kind@.len() > 0;
    let mut picked: Vec<usize> = Vec::new();
    let mut k: usize = 0;
    proof {
        reveal(Seq::filter);
        assert(ids@.take(0).filter(keep) =~= Seq::empty());
    }
    while k < ids.len()
        invariant
            k <= ids@.len(),
            book.wf(),
            book.holds(ids@),
            keep == (|i: usize| book.records@[i as int].kind@.len() > 0),
            picked@ =~= ids@.take(k as int).filter(keep),
        decreases ids@.len() - k,
    {
        let i: usize = ids[k];
        assert(i < book.records@.len());
        proof {
            reveal(Seq::filter);
            assert(ids@.take(k + 1).drop_last() =~= ids@.take(k as int));
        }
        if book.records[i].kind.as_str().unicode_len() > 0 {
            picked.push(i);
        }
        k += 1;
    }
    assert(ids@.take(ids@.len() as int) =~= ids@);
    picked
}

/// The table of the records `ids` by kind.
fn kinds_of(book: Book, ids: &Vec<usize>) -> (kinds: Vec<KindUsage>)
    requires
        book.wf(),
        book.holds(ids@),
        fits(summed(book, ids@)),
    ensures
        are_kinds(book, ids@, kinds@),
{
    let picked = pick_kinds(book, ids);
    proof {
        lemma_part_at_most(book, ids@, |i: usize| book.records@[i as int].kind@.len() > 0);
    }
    let mut lines = ranked(book, Field::Kind, &picked);
    let ghost given = lines@;
    let mut kinds: Vec<KindUsage> = Vec::new();
    while lines.len() > 0
        invariant
            book.wf(),
            book.holds(picked@),
            fits(summed(book, picked@)),
            kinds@.len() + lines@.len() == given.len(),
            lines@ =~= given.skip(kinds@.len() as int),
            lines_right(book, Field::Kind, picked@, given),
            is_ranking(book, Field::Kind, picked@, entries_of(given)),
            forall|k: int|
                0 <= k < kinds@.len() ==> (#[trigger] kinds@[k]).kind == given[k].group.first
                    && given[k].group.second@ == Seq::<char>::empty() && kinds@[k].aggregate
                    == given[k].aggregate,
            forall|k: int|
                0 <= k < kinds@.len() ==> are_models(
                    book,
                    picked@.filter(
                        having(book, Field::Kind, ((#[trigger] kinds@[k]).kind@, Seq::empty())),
                    ),
                    kinds@[k].models@,
                ),
        decreases lines@.len(),
    {
        let ghost n = kinds@.len() as int;
        let line = lines.remove(0);
        proof {
            assert(line == given[n]);
            assert(line.group.members@ == picked@.filter(
                having(book, Field::Kind, line.group.key()),
            ));
            lemma_part_at_most(book, picked@, having(book, Field::Kind, line.group.key()));
            lemma_filtered_source(picked@, having(book, Field::Kind, line.group.key()), 0);
            assert(line.group.second@ =~= Seq::empty());
        }
        let models = models_of(book, &line.group.members);
        let ghost before = kinds@;
        kinds.push(KindUsage { kind: line.group.first, aggregate: line.aggregate, models });
        proof {
            assert forall|k: int| 0 <= k < kinds@.len() implies are_models(
                book,
                picked@.filter(
                    having(book, Field::Kind, ((#[trigger] kinds@[k]).kind@, Seq::empty())),
                ),
                kinds@[k].models@,
            ) by {
                if k < n {
                    assert(kinds@[k] == before[k]);
                }
            }
        }
    }
    assert(kind_entries(kinds@) =~= entries_of(given));
    kinds
}

/// The table of accounts that `accounts` is.
pub open spec fn account_entries(accounts: Seq<AccountUsage>) -> Seq<Entry> {
    accounts.map_values(
        |a: AccountUsage| Entry { first: a.acct@, second: Seq::empty(), aggregate: a.aggregate },
    )
}

/// The table of the records `ids` by account.
fn accounts_of(book: Book, ids: &Vec<usize>) -> (accounts: Vec<AccountUsage>)
    requires
        book.wf(),
        book.holds(ids@),
        fits(summed(book, ids@)),
    ensures
        is_ranking(book, Field::Account, ids@, account_entries(accounts@)),
{
    let mut lines = ranked(book, Field::Account, ids);
    let ghost given = lines@;
    let mut accounts: Vec<AccountUsage> = Vec::new();
    while lines.len() > 0
        invariant
            accounts@.len() + lines@.len() == given.len(),
            lines@ =~= given.skip(accounts@.len() as int),
            lines_right(book, Field::Account, ids@, given),
            is_ranking(book, Field::Account, ids@, entries_of(given)),
            forall|k: int|
                0 <= k < accounts@.len() ==> (#[trigger] accounts@[k]).acct
                    == given[k].group.first && given[k].group.second@ == Seq::<char>::empty()
                    && accounts@[k].aggregate == given[k].aggregate,
        decreases lines@.len(),
    {
        let ghost n = accounts@.len() as int;
        let line = lines.remove(0);
        proof {
            assert(line == given[n]);
            lemma_filtered_source(ids@, having(book, Field::Account, line.group.key()), 0);
            assert(line.group.second@ =~= Seq::empty());
        }
        accounts.push(AccountUsage { acct: line.group.first, aggregate: line.aggregate });
    }
    assert(account_entries(accounts@) =~= entries_of(given));
    accounts
}

// ---------------------------------------------------------------------------
// Sources
// ---------------------------------------------------------------------------

/// Whether a source comes before another: the agent first, the others by name.
pub open spec fn source_before(a: Seq<char>, b: Seq<char>) -> bool {
    if a == AGENT@ {
        b != AGENT@
    } else {
        b != AGENT@ && text::precedes(a, b)
    }
}

/// The table of sources that `sources` is.
pub open spec fn source_entries(sources: Seq<SourceUsage>) -> Seq<Entry> {
    sources.map_values(
        |s: SourceUsage| Entry { first: s.src@, second: Seq::empty(), aggregate: s.aggregate },
    )
}

/// The records of a source.
pub open spec fn of_source(book: Book, ids: Seq<usize>, src: Seq<char>) -> Seq<usize> {
    ids.filter(having(book, Field::Source, (src, Seq::empty())))
}

/// Whether each source has the tables of its models and its kinds.
pub open spec fn sources_detailed(book: Book, ids: Seq<usize>, sources: Seq<SourceUsage>) -> bool {
    forall|s: int|
        0 <= s < sources.len() ==> {
            let members = of_source(book, ids, (#[trigger] sources[s]).src@);
            are_models(book, members, sources[s].models@) && are_kinds(
                book,
                members,
                sources[s].kinds@,
            )
        }
}

/// Whether the agent comes first and the others by name.
pub open spec fn agent_first(sources: Seq<SourceUsage>) -> bool {
    forall|i: int, j: int|
        0 <= i < j < sources.len() ==> source_before(
            (#[trigger] sources[i]).src@,
            (#[trigger] sources[j]).src@,
        )
}

/// Whether `sources` is the table of the records `ids` by source, the agent
/// first and the others by name, with the models and the kinds of each.
pub open spec fn are_sources(book: Book, ids: Seq<usize>, sources: Seq<SourceUsage>) -> bool {
    &&& agent_first(sources)
    &&& sums_right(book, Field::Source, ids, source_entries(sources))
    &&& all_listed(book, Field::Source, ids, source_entries(sources))
    &&& sources_detailed(book, ids, sources)
}

/// Whether a source has a line.
spec fn has_source(sources: Seq<SourceUsage>, src: Seq<char>) -> bool {
    exists|s: int| 0 <= s < sources.len() && (#[trigger] sources[s]).src@ == src
}

/// The table of the records `ids` by source.
fn sources_of(book: Book, ids: &Vec<usize>) -> (sources: Vec<SourceUsage>)
    requires
        book.wf(),
        book.holds(ids@),
        fits(summed(book, ids@)),
    ensures
        are_sources(book, ids@, sources@),
{
    let mut left = grouped(book, Field::Source, ids);
    let ghost given = left@;
    let ghost mut done: int = 0;
    let mut sources: Vec<SourceUsage> = Vec::new();
    while left.len() > 0
        invariant
            0 <= done <= given.len(),
            left@ =~= given.skip(done),
            book.wf(),
            book.holds(ids@),
            fits(summed(book, ids@)),
            keys_ascend(given),
            members_right(book, Field::Source, ids@, given),
            none_empty(given),
            agent_first(sources@),
            sources_detailed(book, ids@, sources@),
            sums_right(book, Field::Source, ids@, source_entries(sources@)),
            forall|s: int, g: int|
                0 <= s < sources@.len() && done <= g < given.len() ==> text::precedes(
                    (#[trigger] sources@[s]).src@,
                    (#[trigger] given[g]).first@,
                ),
            forall|g: int|
                0 <= g < done ==> has_source(sources@, (#[trigger] given[g]).first@)
                    && given[g].second@ == Seq::<char>::empty(),
        decreases left@.len(),
    {
        let group = left.remove(0);
        let ghost before = sources@;
        let ghost keep = having(book, Field::Source, group.key());
        proof {
            assert(group == given[done]);
            assert(left@ =~= given.skip(done + 1));
            lemma_part_at_most(book, ids@, keep);
            lemma_filtered_source(ids@, keep, 0);
            assert(group.second@ =~= Seq::empty());
            assert forall|g: int| done < g < given.len() implies text::precedes(
                group.first@,
                (#[trigger] given[g]).first@,
            ) by {
                assert(key_before(given[done].key(), given[g].key()));
                assert(given[g].members@.len() > 0);
                lemma_filtered_source(
                    ids@,
                    having(book, Field::Source, given[g].key()),
                    0,
                );
                text::lemma_precedes_total(group.second@, given[g].second@);
            }
        }
        let aggregate = sum_of(book, &group.members);
        let models = models_of(book, &group.members);
        let kinds = kinds_of(book, &group.members);
        let is_agent = same_text(group.first.as_str(), AGENT);
        let at: usize = if is_agent {
            0
        } else {
            sources.len()
        };
        let source = SourceUsage { src: group.first, aggregate, models, kinds };
        let ghost added = source;
        sources.insert(at, source);
        proof {
            assert(sources@ =~= before.insert(at as int, added));
            lemma_source_added(book, ids@, before, at as int, added);
            assert forall|s: int, g: int|
                0 <= s < sources@.len() && done + 1 <= g < given.len() implies text::precedes(
                (#[trigger] sources@[s]).src@,
                (#[trigger] given[g]).first@,
            ) by {
                if s < at {
                    assert(sources@[s] == before[s]);
                } else if s > at {
                    assert(sources@[s] == before[s - 1]);
                }
            }
            assert forall|g: int| 0 <= g < done + 1 implies has_source(
                sources@,
                (#[trigger] given[g]).first@,
            ) && given[g].second@ == Seq::<char>::empty() by {
                if g == done {
                    assert(sources@[at as int].src@ == given[g].first@);
                } else {
                    assert(has_source(before, given[g].first@));
                    let s = choose|s: int|
                        0 <= s < before.len() && (#[trigger] before[s]).src@ == given[g].first@;
                    let t = if s < at {
                        s
                    } else {
                        s + 1
                    };
                    assert(sources@[t] == before[s]);
                }
            }
            done = done + 1;
        }
    }
    proof {
        let entries = source_entries(sources@);
        assert forall|k: int| 0 <= k < ids@.len() implies has_line(
            entries,
            key_of(book, Field::Source, #[trigger] ids@[k]),
        ) by {
            let key = key_of(book, Field::Source, ids@[k]);
            assert(has_key(given, key));
            let g = choose|g: int| 0 <= g < given.len() && (#[trigger] given[g]).key() == key;
            assert(has_source(sources@, given[g].first@));
            let s = choose|s: int|
                0 <= s < sources@.len() && (#[trigger] sources@[s]).src@ == given[g].first@;
            assert(entries[s].key() == key);
        }
    }
    sources
}

proof fn lemma_source_added(
    book: Book,
    ids: Seq<usize>,
    before: Seq<SourceUsage>,
    at: int,
    source: SourceUsage,
)
    requires
        agent_first(before),
        sources_detailed(book, ids, before),
        sums_right(book, Field::Source, ids, source_entries(before)),
        at == if source.src@ == AGENT@ {
            0
        } else {
            before.len() as int
        },
        forall|s: int|
            0 <= s < before.len() ==> text::precedes((#[trigger] before[s]).src@, source.src@),
        of_source(book, ids, source.src@).len() > 0,
        source.aggregate.is(summed(book, of_source(book, ids, source.src@))),
        are_models(book, of_source(book, ids, source.src@), source.models@),
        are_kinds(book, of_source(book, ids, source.src@), source.kinds@),
    ensures
        agent_first(before.insert(at, source)),
        sources_detailed(book, ids, before.insert(at, source)),
        sums_right(book, Field::Source, ids, source_entries(before.insert(at, source))),
{
    let after = before.insert(at, source);
    assert(after.len() == before.len() + 1);
    let old_place = |s: int|
        if s < at {
            s
        } else {
            s - 1
        };
    assert forall|i: int, j: int| 0 <= i < j < after.len() implies source_before(
        (#[trigger] after[i]).src@,
        (#[trigger] after[j]).src@,
    ) by {
        if i == at {
            assert(after[j] == before[j - 1]);
            text::lemma_precedes_total(before[j - 1].src@, source.src@);
        } else if j == at {
            assert(after[i] == before[i]);
            text::lemma_precedes_total(before[i].src@, source.src@);
        } else {
            assert(after[i] == before[old_place(i)]);
            assert(after[j] == before[old_place(j)]);
        }
    }
    assert forall|s: int| 0 <= s < after.len() implies {
        let members = of_source(book, ids, (#[trigger] after[s]).src@);
        are_models(book, members, after[s].models@) && are_kinds(book, members, after[s].kinds@)
    } by {
        if s != at {
            assert(after[s] == before[old_place(s)]);
        }
    }
    let entries = source_entries(after);
    let older = source_entries(before);
    assert forall|e: int| 0 <= e < entries.len() implies {
        let members = ids.filter(having(book, Field::Source, (#[trigger] entries[e]).key()));
        members.len() > 0 && entries[e].aggregate.is(summed(book, members))
    } by {
        if e != at {
            assert(after[e] == before[old_place(e)]);
            assert(entries[e] == older[old_place(e)]);
        }
    }
}

// ---------------------------------------------------------------------------
// Days
// ---------------------------------------------------------------------------

impl DailyUsage {
    /// Whether these are the sums.
    pub open spec fn is(&self, sums: Sums) -> bool {
        &&& self.requests == sums.requests
        &&& self.prompt == sums.prompt
        &&& self.completion == sums.completion
        &&& self.cache_read == sums.cache_read
        &&& self.total == sums.total
        &&& self.costed@ == sums.costed
    }
}

/// The records of a day.
pub open spec fn of_day(book: Book, ids: Seq<usize>, date: Seq<char>) -> Seq<usize> {
    ids.filter(having(book, Field::Day, (date, Seq::empty())))
}

/// Whether `date` is one of `dates`.
pub open spec fn names_day(dates: Seq<String>, date: Seq<char>) -> bool {
    exists|d: int| 0 <= d < dates.len() && (#[trigger] dates[d])@ == date
}

/// Whether a day has a line.
pub open spec fn has_day_line(days: Seq<DailyUsage>, date: Seq<char>) -> bool {
    exists|d: int| 0 <= d < days.len() && (#[trigger] days[d]).date@ == date
}

/// Whether `days` are the days of the records `ids` and the days `window`, in
/// order, each with what its records add up to.
pub open spec fn are_days(
    book: Book,
    ids: Seq<usize>,
    window: Seq<String>,
    days: Seq<DailyUsage>,
) -> bool {
    &&& forall|i: int, j: int|
        0 <= i < j < days.len() ==> text::precedes(
            (#[trigger] days[i]).date@,
            (#[trigger] days[j]).date@,
        )
    &&& forall|d: int|
        0 <= d < days.len() ==> {
            let members = of_day(book, ids, (#[trigger] days[d]).date@);
            days[d].is(summed(book, members)) && (members.len() > 0 || names_day(
                window,
                days[d].date@,
            ))
        }
    &&& forall|k: int|
        0 <= k < ids.len() ==> has_day_line(
            days,
            key_of(book, Field::Day, #[trigger] ids[k]).0,
        )
    &&& forall|w: int| 0 <= w < window.len() ==> has_day_line(days, (#[trigger] window[w])@)
}

/// The groups of the days of the records, and an empty one for each other day
/// of `window`.
fn day_groups(book: Book, ids: &Vec<usize>, window: &Vec<String>) -> (groups: Vec<Group>)
    requires
        book.wf(),
        book.holds(ids@),
    ensures
        keys_ascend(groups@),
        members_right(book, Field::Day, ids@, groups@),
        all_grouped(book, Field::Day, ids@, groups@),
        forall|g: int|
            0 <= g < groups@.len() ==> (#[trigger] groups@[g]).second@ == Seq::<char>::empty() && (
            groups@[g].members@.len() > 0 || names_day(window@, groups@[g].first@)),
        forall|w: int|
            0 <= w < window@.len() ==> has_key(groups@, ((#[trigger] window@[w])@, Seq::empty())),
{
    let mut groups = grouped(book, Field::Day, ids);
    proof {
        assert forall|g: int| 0 <= g < groups@.len() implies (#[trigger] groups@[g]).second@
            == Seq::<char>::empty() by {
            assert(groups@[g].members@.len() > 0);
            lemma_filtered_source(ids@, having(book, Field::Day, groups@[g].key()), 0);
        }
        reveal_strlit("");
        assert(""@ =~= Seq::empty());
    }
    let mut w: usize = 0;
    while w < window.len()
        invariant
            w <= window@.len(),
            ""@ == Seq::<char>::empty(),
            keys_ascend(groups@),
            members_right(book, Field::Day, ids@, groups@),
            all_grouped(book, Field::Day, ids@, groups@),
            forall|g: int|
                0 <= g < groups@.len() ==> (#[trigger] groups@[g]).second@ == Seq::<char>::empty()
                    && (groups@[g].members@.len() > 0 || names_day(window@, groups@[g].first@)),
            forall|v: int|
                0 <= v < w ==> has_key(groups@, ((#[trigger] window@[v])@, Seq::empty())),
        decreases window@.len() - w,
    {
        let (at, there) = place_of(&groups, window[w].as_str(), "");
        let ghost before = groups@;
        let ghost key = (window@[w as int]@, Seq::<char>::empty());
        if !there {
            groups.insert(
                at,
                Group {
                    first: window[w].clone(),
                    second: "".to_owned(),
                    members: Vec::new(),
                },
            );
            proof {
                assert(groups@ =~= before.insert(at as int, groups@[at as int]));
                lemma_day_added(book, ids@, before, groups@, at as int, window@);
                assert(groups@[at as int].key() == key);
                assert forall|v: int| 0 <= v < w implies has_key(
                    groups@,
                    ((#[trigger] window@[v])@, Seq::empty()),
                ) by {
                    lemma_key_kept(before, groups@, at as int, (window@[v]@, Seq::empty()));
                }
            }
        } else {
            assert(groups@[at as int].key() == key);
        }
        w += 1;
    }
    groups
}

/// A group that is inserted takes no key away.
proof fn lemma_key_kept(before: Seq<Group>, after: Seq<Group>, at: int, key: (Seq<char>, Seq<char>))
    requires
        0 <= at <= before.len(),
        after == before.insert(at, after[at]),
        has_key(before, key),
    ensures
        has_key(after, key),
{
    let g = choose|g: int| 0 <= g < before.len() && (#[trigger] before[g]).key() == key;
    let h = if g < at {
        g
    } else {
        g + 1
    };
    assert(after[h] == before[g]);
}

proof fn lemma_day_added(
    book: Book,
    ids: Seq<usize>,
    before: Seq<Group>,
    after: Seq<Group>,
    at: int,
    window: Seq<String>,
)
    requires
        0 <= at <= before.len(),
        keys_ascend(before),
        members_right(book, Field::Day, ids, before),
        all_grouped(book, Field::Day, ids, before),
        forall|g: int|
            0 <= g < before.len() ==> (#[trigger] before[g]).second@ == Seq::<char>::empty() && (
            before[g].members@.len() > 0 || names_day(window, before[g].first@)),
        after == before.insert(at, after[at]),
        after[at].members@.len() == 0,
        after[at].second@ == Seq::<char>::empty(),
        names_day(window, after[at].first@),
        forall|g: int| 0 <= g < at ==> key_before((#[trigger] before[g]).key(), after[at].key()),
        forall|g: int|
            at <= g < before.len() ==> key_before(after[at].key(), (#[trigger] before[g]).key()),
    ensures
        keys_ascend(after),
        members_right(book, Field::Day, ids, after),
        all_grouped(book, Field::Day, ids, after),
        forall|g: int|
            0 <= g < after.len() ==> (#[trigger] after[g]).second@ == Seq::<char>::empty() && (
            after[g].members@.len() > 0 || names_day(window, after[g].first@)),
{
    let key = after[at].key();
    let old_place = |g: int|
        if g < at {
            g
        } else {
            g - 1
        };
    assert(after.len() == before.len() + 1);
    assert forall|i: int, j: int| 0 <= i < j < after.len() implies key_before(
        #[trigger] after[i].key(),
        #[trigger] after[j].key(),
    ) by {
        if i == at {
            assert(after[j] == before[j - 1]);
        } else if j == at {
            assert(after[i] == before[i]);
        } else {
            assert(after[i] == before[old_place(i)]);
            assert(after[j] == before[old_place(j)]);
            assert(key_before(before[old_place(i)].key(), before[old_place(j)].key()));
        }
    }
    assert forall|g: int| 0 <= g < after.len() implies (#[trigger] after[g]).members@ == ids.filter(
        having(book, Field::Day, after[g].key()),
    ) by {
        if g == at {
            let part = ids.filter(having(book, Field::Day, key));
            if part.len() > 0 {
                lemma_filtered_source(ids, having(book, Field::Day, key), 0);
                let n = choose|n: int| 0 <= n < ids.len() && ids[n] == part[0];
                assert(key_of(book, Field::Day, ids[n]) == key);
                assert(has_key(before, key_of(book, Field::Day, ids[n])));
                let h = choose|h: int| 0 <= h < before.len() && (#[trigger] before[h]).key() == key;
                lemma_key_total(before[h].key(), key);
            }
            assert(after[g].members@ =~= part);
        } else {
            assert(after[g] == before[old_place(g)]);
        }
    }
    assert forall|k: int| 0 <= k < ids.len() implies has_key(
        after,
        key_of(book, Field::Day, #[trigger] ids[k]),
    ) by {
        lemma_key_kept(before, after, at, key_of(book, Field::Day, ids[k]));
    }
    assert forall|g: int| 0 <= g < after.len() implies (#[trigger] after[g]).second@
        == Seq::<char>::empty() && (after[g].members@.len() > 0 || names_day(
        window,
        after[g].first@,
    )) by {
        if g != at {
            assert(after[g] == before[old_place(g)]);
        }
    }
}

/// Whether counters are large enough for the records of each day.
pub open spec fn days_fit(book: Book, ids: Seq<usize>) -> bool {
    forall|date: Seq<char>| fits(summed(book, #[trigger] of_day(book, ids, date)))
}

/// The days of the records `ids` and the days `window`, in order, each with
/// what its records add up to.
pub fn days_of(book: Book, ids: &Vec<usize>, window: &Vec<String>) -> (days: Vec<DailyUsage>)
    requires
        book.wf(),
        book.holds(ids@),
        days_fit(book, ids@),
    ensures
        are_days(book, ids@, window@, days@),
{
    let mut left = day_groups(book, ids, window);
    let ghost given = left@;
    let mut days: Vec<DailyUsage> = Vec::new();
    while left.len() > 0
        invariant
            book.wf(),
            book.holds(ids@),
            days_fit(book, ids@),
            days@.len() + left@.len() == given.len(),
            left@ =~= given.skip(days@.len() as int),
            members_right(book, Field::Day, ids@, given),
            forall|g: int|
                0 <= g < given.len() ==> (#[trigger] given[g]).second@ == Seq::<char>::empty() && (
                given[g].members@.len() > 0 || names_day(window@, given[g].first@)),
            forall|d: int|
                0 <= d < days@.len() ==> (#[trigger] days@[d]).date == given[d].first
                    && days@[d].is(summed(book, given[d].members@)),
        decreases left@.len(),
    {
        let group = left.remove(0);
        proof {
            assert(group == given[days@.len() as int]);
            lemma_part_at_most(book, ids@, having(book, Field::Day, group.key()));
            assert(fits(summed(book, of_day(book, ids@, group.first@))));
        }
        let sum = sum_of(book, &group.members);
        days.push(
            DailyUsage {
                date: group.first,
                requests: sum.requests,
                prompt: sum.prompt,
                completion: sum.completion,
                cache_read: sum.cache_read,
                total: sum.total,
                costed: sum.costed,
            },
        );
    }
    proof {
        assert forall|i: int, j: int| 0 <= i < j < days@.len() implies text::precedes(
            (#[trigger] days@[i]).date@,
            (#[trigger] days@[j]).date@,
        ) by {
            assert(key_before(given[i].key(), given[j].key()));
            text::lemma_precedes_total(given[i].second@, given[j].second@);
        }
        assert forall|d: int| 0 <= d < days@.len() implies {
            let members = of_day(book, ids@, (#[trigger] days@[d]).date@);
            days@[d].is(summed(book, members)) && (members.len() > 0 || names_day(
                window@,
                days@[d].date@,
            ))
        } by {
            assert(given[d].key() == (days@[d].date@, Seq::<char>::empty()));
        }
        assert forall|k: int| 0 <= k < ids@.len() implies has_day_line(
            days@,
            key_of(book, Field::Day, #[trigger] ids@[k]).0,
        ) by {
            let key = key_of(book, Field::Day, ids@[k]);
            assert(has_key(given, key));
            let g = choose|g: int| 0 <= g < given.len() && (#[trigger] given[g]).key() == key;
            assert(days@[g].date@ == key.0);
        }
        assert forall|w: int| 0 <= w < window@.len() implies has_day_line(
            days@,
            (#[trigger] window@[w])@,
        ) by {
            let key = (window@[w]@, Seq::<char>::empty());
            assert(has_key(given, key));
            let g = choose|g: int| 0 <= g < given.len() && (#[trigger] given[g]).key() == key;
            assert(days@[g].date@ == key.0);
        }
    }
    days
}

// ---------------------------------------------------------------------------
// The whole
// ---------------------------------------------------------------------------

/// The records from `from` on and before `to`.
pub open spec fn between(book: Book, from: Option<int>, to: Option<int>) -> Seq<usize> {
    all_ids(book.records@.len()).filter(is_between(book, from, to))
}

/// Whether a record is from `from` or later and from before `to`.
pub open spec fn is_between(book: Book, from: Option<int>, to: Option<int>) -> spec_fn(usize) -> bool {
    |i: usize|
        {
            let ts = book.records@[i as int].ts;
            (from matches Some(f) ==> ts >= f) && (to matches Some(t) ==> ts < t)
        }
}

/// The records of the days shown: from `floor` on, with a day.
pub open spec fn shown(book: Book, floor: int) -> Seq<usize> {
    all_ids(book.records@.len()).filter(is_shown(book, floor))
}

/// Whether a record is from `floor` or later and has a day.
pub open spec fn is_shown(book: Book, floor: int) -> spec_fn(usize) -> bool {
    |i: usize| book.records@[i as int].ts >= floor && book.days@[i as int] is Some
}

/// All records are records.
proof fn lemma_all_held(book: Book)
    requires
        book.records@.len() <= usize::MAX,
    ensures
        book.holds(all_ids(book.records@.len())),
{
    let ids = all_ids(book.records@.len());
    assert forall|k: int| 0 <= k < ids.len() implies (#[trigger] ids[k]) < book.records@.len() by {
        assert(ids[k] == k as usize);
    }
}

/// The numbers of one record more.
proof fn lemma_ids_step(n: nat, keep: spec_fn(usize) -> bool)
    requires
        n < usize::MAX,
    ensures
        all_ids(n + 1).filter(keep) == if keep(n as usize) {
            all_ids(n).filter(keep).push(n as usize)
        } else {
            all_ids(n).filter(keep)
        },
{
    reveal(Seq::filter);
    assert(all_ids(n + 1).drop_last() =~= all_ids(n));
}

/// Picks the records from `from` on and before `to`.
fn pick_between(book: Book, from: Option<i64>, to: Option<i64>) -> (ids: Vec<usize>)
    requires
        book.wf(),
    ensures
        ids@ == between(book, opt_int(from), opt_int(to)),
        book.holds(ids@),
{
    let ghost keep = is_between(book, opt_int(from), opt_int(to));
    let mut ids: Vec<usize> = Vec::new();
    let mut i: usize = 0;
    proof {
        reveal(Seq::filter);
        assert(all_ids(0).filter(keep) =~= Seq::empty());
    }
    while i < book.records.len()
        invariant
            i <= book.records@.len(),
            keep == is_between(book, opt_int(from), opt_int(to)),
            ids@ =~= all_ids(i as nat).filter(keep),
        decreases book.records@.len() - i,
    {
        proof {
            lemma_ids_step(i as nat, keep);
        }
        let ts: i64 = book.records[i].ts;
        let late = match from {
            Some(from) => ts >= from,
            None => true,
        };
        let early = match to {
            Some(to) => ts < to,
            None => true,
        };
        if late && early {
            ids.push(i);
        }
        i += 1;
    }
    proof {
        lemma_all_held(book);
        lemma_part_at_most(book, all_ids(book.records@.len()), keep);
    }
    ids
}

/// A bound that may be missing, as a number.
pub open spec fn opt_int(n: Option<i64>) -> Option<int> {
    match n {
        Some(n) => Some(n as int),
        None => None,
    }
}

/// Picks the records of the days shown.
fn pick_shown(book: Book, floor: i64) -> (ids: Vec<usize>)
    requires
        book.wf(),
    ensures
        ids@ == shown(book, floor as int),
        book.holds(ids@),
{
    let ghost keep = is_shown(book, floor as int);
    let mut ids: Vec<usize> = Vec::new();
    let mut i: usize = 0;
    proof {
        reveal(Seq::filter);
        assert(all_ids(0).filter(keep) =~= Seq::empty());
    }
    while i < book.records.len()
        invariant
            i <= book.records@.len(),
            book.wf(),
            keep == is_shown(book, floor as int),
            ids@ =~= all_ids(i as nat).filter(keep),
        decreases book.records@.len() - i,
    {
        proof {
            lemma_ids_step(i as nat, keep);
        }
        if book.records[i].ts >= floor && book.days[i].is_some() {
            ids.push(i);
        }
        i += 1;
    }
    proof {
        lemma_all_held(book);
        lemma_part_at_most(book, all_ids(book.records@.len()), keep);
    }
    ids
}

/// The time of the earliest record.
pub open spec fn is_first(records: Seq<UsageRecord>, first: Option<i64>) -> bool {
    match first {
        Some(t) => (exists|i: int| 0 <= i < records.len() && (#[trigger] records[i]).ts == t)
            && forall|i: int| 0 <= i < records.len() ==> t <= (#[trigger] records[i]).ts,
        None => records.len() == 0,
    }
}

/// The time of the earliest record.
fn first_of(records: &Vec<UsageRecord>) -> (first: Option<i64>)
    ensures
        is_first(records@, first),
{
    if records.len() == 0 {
        return None;
    }
    let mut first: i64 = records[0].ts;
    let mut i: usize = 1;
    while i < records.len()
        invariant
            1 <= i <= records@.len(),
            exists|k: int| 0 <= k < i && (#[trigger] records@[k]).ts == first,
            forall|k: int| 0 <= k < i ==> first <= (#[trigger] records@[k]).ts,
        decreases records@.len() - i,
    {
        if records[i].ts < first {
            first = records[i].ts;
        }
        i += 1;
    }
    Some(first)
}

/// The local calendar, as far as the sums depend on it.
#[derive(Debug)]
pub struct Calendar {
    /// The current time, in seconds since the Unix epoch.
    pub now: i64,
    /// When today began, or now where that cannot be told.
    pub today_start: i64,
    /// The days shown, whether or not there is a record of them.
    pub window: Vec<String>,
}

impl Calendar {
    /// Both times lie in the calendar, and there are no more days in the
    /// window than are shown.
    pub open spec fn wf(&self) -> bool {
        &&& clock::in_calendar(self.now as int)
        &&& clock::in_calendar(self.today_start as int)
        &&& self.window@.len() <= DAYS_SHOWN
    }
}

/// Whether `daily` are the last days shown of all days.
pub open spec fn are_last_days(
    book: Book,
    ids: Seq<usize>,
    window: Seq<String>,
    daily: Seq<DailyUsage>,
) -> bool {
    exists|days: Seq<DailyUsage>| #[trigger]
        are_days(book, ids, window, days) && daily == last_days(days)
}

/// The last days shown of `days`.
pub open spec fn last_days(days: Seq<DailyUsage>) -> Seq<DailyUsage> {
    if days.len() > DAYS_SHOWN {
        days.skip(days.len() - DAYS_SHOWN)
    } else {
        days
    }
}

/// Whether `stats` is what the records add up to for `range`, split by account
/// where `per_account`.
pub open spec fn is_stats(
    book: Book,
    range: UsageRange,
    per_account: bool,
    calendar: Calendar,
    stats: UsageStats,
) -> bool {
    let window = range.window(calendar.now as int, calendar.today_start as int);
    let start = match window {
        Some((start, _)) => Some(start),
        None => None,
    };
    let ids = between(book, start, None);
    &&& stats.range@ == range.name()
    &&& stats.totals.is(summed(book, ids))
    &&& match (window, stats.prev_totals) {
        (Some((start, before)), Some(prev)) => prev.is(
            summed(book, between(book, Some(before), Some(start))),
        ),
        (None, None) => true,
        _ => false,
    }
    &&& are_last_days(
        book,
        shown(book, calendar.today_start - 363 * DAY),
        calendar.window@,
        stats.daily@,
    )
    &&& are_sources(book, ids, stats.sources@)
    &&& if per_account {
        is_ranking(book, Field::Account, ids, account_entries(stats.accounts@))
    } else {
        stats.accounts@.len() == 0
    }
    &&& is_first(book.records@, stats.first_ts)
}

/// Whether counters are large enough for what is added up for `range`: the
/// records of the range, those of the range before it, and those of each day.
pub open spec fn sums_fit(book: Book, range: UsageRange, calendar: Calendar) -> bool {
    &&& match range.window(calendar.now as int, calendar.today_start as int) {
        Some((start, before)) => fits(summed(book, between(book, Some(start), None))) && fits(
            summed(book, between(book, Some(before), Some(start))),
        ),
        None => fits(summed(book, between(book, None, None))),
    }
    &&& days_fit(book, shown(book, calendar.today_start - 363 * DAY))
}

/// Counters that are large enough for all records are for some.
proof fn lemma_sums_fit(book: Book, range: UsageRange, calendar: Calendar)
    requires
        fits(summed(book, all_ids(book.records@.len()))),
    ensures
        sums_fit(book, range, calendar),
{
    let all = all_ids(book.records@.len());
    match range.window(calendar.now as int, calendar.today_start as int) {
        Some((start, before)) => {
            lemma_part_at_most(book, all, is_between(book, Some(start), None));
            lemma_part_at_most(book, all, is_between(book, Some(before), Some(start)));
        },
        None => {
            lemma_part_at_most(book, all, is_between(book, None, None));
        },
    }
    let floor = calendar.today_start - 363 * DAY;
    let ids = shown(book, floor);
    lemma_part_at_most(book, all, is_shown(book, floor));
    assert forall|date: Seq<char>| fits(summed(book, #[trigger] of_day(book, ids, date))) by {
        lemma_part_at_most(book, ids, having(book, Field::Day, (date, Seq::empty())));
    }
}

/// Adds up the records for `range`, with the local calendar given. Where
/// `account` is given the records are those of one account, and are not split
/// by account.
pub fn aggregate_on(book: Book, range: UsageRange, account: Option<&str>, calendar: &Calendar) -> (stats:
    UsageStats)
    requires
        book.wf(),
        range.valid(),
        clock::in_calendar(calendar.now as int),
        clock::in_calendar(calendar.today_start as int),
        sums_fit(book, range, *calendar),
    ensures
        is_stats(book, range, account is None, *calendar, stats),
{
    let now: i64 = calendar.now;
    let today_start: i64 = calendar.today_start;
    let window: Option<(i64, i64)> = match range {
        UsageRange::LastDay => Some((now - DAY, now - 2 * DAY)),
        UsageRange::Days(n) => {
            let start: i64 = today_start - (n - 1) as i64 * DAY;
            Some((start, start - n as i64 * DAY))
        },
        UsageRange::All => None,
    };
    let start: Option<i64> = match window {
        Some((start, _)) => Some(start),
        None => None,
    };
    let ids = pick_between(book, start, None);
    let totals = sum_of(book, &ids);
    let prev_totals = match window {
        Some((start, before)) => {
            let ids = pick_between(book, Some(before), Some(start));
            Some(sum_of(book, &ids))
        },
        None => None,
    };
    let shown_ids = pick_shown(book, today_start - 363 * DAY);
    let mut daily = days_of(book, &shown_ids, &calendar.window);
    let ghost days = daily@;
    while daily.len() > DAYS_SHOWN
        invariant
            daily@.len() <= days.len(),
            daily@ =~= days.skip(days.len() - daily@.len()),
            days.len() > DAYS_SHOWN ==> daily@.len() >= DAYS_SHOWN,
            days.len() <= DAYS_SHOWN ==> daily@ == days,
        decreases daily@.len(),
    {
        daily.remove(0);
    }
    proof {
        assert(daily@ =~= last_days(days));
        assert(are_days(book, shown_ids@, calendar.window@, days));
    }
    let sources = sources_of(book, &ids);
    let accounts = if account.is_none() {
        accounts_of(book, &ids)
    } else {
        Vec::new()
    };
    UsageStats {
        range: range.label(),
        totals,
        prev_totals,
        daily,
        sources,
        accounts,
        first_ts: first_of(book.records),
    }
}

/// When the days begin that are shown, the last of them the one that began at
/// `start`: each is a day's length before the next.
pub fn shown_starts(start: i64) -> (starts: Vec<i64>)
    requires
        clock::in_calendar(start as int),
    ensures
        starts@.len() == DAYS_SHOWN,
        forall|k: int|
            0 <= k < DAYS_SHOWN ==> #[trigger] starts@[k] == start - (DAYS_SHOWN - 1 - k) * DAY,
{
    let mut starts: Vec<i64> = Vec::new();
    let mut k: i64 = 0;
    while k < DAYS_SHOWN as i64
        invariant
            0 <= k <= DAYS_SHOWN,
            starts@.len() == k,
            clock::in_calendar(start as int),
            forall|j: int|
                0 <= j < k ==> #[trigger] starts@[j] == start - (DAYS_SHOWN - 1 - j) * DAY,
        decreases DAYS_SHOWN - k,
    {
        starts.push(start - (DAYS_SHOWN as i64 - 1 - k) * DAY);
        k += 1;
    }
    starts
}

/// The dates that are there, in order.
pub open spec fn dates_held(dates: Seq<Option<String>>) -> Seq<String>
    decreases dates.len(),
{
    if dates.len() == 0 {
        Seq::empty()
    } else {
        match dates.last() {
            Some(date) => dates_held(dates.drop_last()).push(date),
            None => dates_held(dates.drop_last()),
        }
    }
}

/// Whether `calendar` is that of the time `now` on a day that began at `today`,
/// where that can be told, with the dates of the days shown.
pub open spec fn is_calendar_of(
    calendar: Calendar,
    now: i64,
    today: Option<i64>,
    dates: Seq<Option<String>>,
) -> bool {
    &&& calendar.now == now
    &&& calendar.today_start == match today {
        Some(start) => start,
        None => now,
    }
    &&& calendar.window@ == if today is Some {
        dates_held(dates)
    } else {
        Seq::empty()
    }
}

/// The calendar of the time `now` on a day that began at `today`, with the
/// dates of the days shown as far as they can be told. Where it cannot be told
/// when the day began it is now, and no day is shown for its own sake.
pub fn calendar_of(now: i64, today: Option<i64>, dates: &Vec<Option<String>>) -> (calendar: Calendar)
    requires
        clock::in_calendar(now as int),
        today matches Some(start) ==> clock::in_calendar(start as int),
    ensures
        is_calendar_of(calendar, now, today, dates@),
        dates@.len() <= DAYS_SHOWN ==> calendar.wf(),
{
    let today_start: i64 = match today {
        Some(start) => start,
        None => now,
    };
    let mut window: Vec<String> = Vec::new();
    if today.is_some() {
        let mut k: usize = 0;
        proof {
            assert(dates@.take(0) =~= Seq::empty());
        }
        while k < dates.len()
            invariant
                k <= dates@.len(),
                window@ =~= dates_held(dates@.take(k as int)),
                window@.len() <= k,
            decreases dates@.len() - k,
        {
            proof {
                assert(dates@.take(k + 1).drop_last() =~= dates@.take(k as int));
            }
            if let Some(date) = &dates[k] {
                window.push(date.clone());
            }
            k += 1;
        }
        assert(dates@.take(k as int) =~= dates@);
    }
    Calendar { now, today_start, window }
}

/// Whether a date, where there is one, can be that of the local day of a
/// record from `ts`. Those from before `floor` have none.
pub open spec fn can_be_day(ts: i64, floor: int, day: Option<String>) -> bool {
    day matches Some(date) ==> ts >= floor && exists|start: i64| #[trigger]
        clock::is_midnight(ts as int, start as int) && clock::is_date(start as int, date@)
}

/// The date of the local day of a record from `ts`, unless it is from before
/// `floor`.
fn day_of(ts: i64, floor: i64) -> (day: Option<String>)
    ensures
        can_be_day(ts, floor as int, day),
{
    if ts < floor {
        return None;
    }
    match local_midnight(ts) {
        Some(start) => local_date(start),
        None => None,
    }
}

/// Whether dates, where they are there, can be those of the days shown, the
/// last of them the one that began at `start`.
pub open spec fn can_be_dates(start: i64, dates: Seq<Option<String>>) -> bool {
    &&& dates.len() == DAYS_SHOWN
    &&& forall|k: int|
        0 <= k < DAYS_SHOWN ==> ((#[trigger] dates[k]) matches Some(date) ==> clock::is_date(
            start - (DAYS_SHOWN - 1 - k) * DAY,
            date@,
        ))
}

/// The dates of the days shown, the last of them the one that began at `start`.
fn dates_of(start: i64) -> (dates: Vec<Option<String>>)
    requires
        clock::in_calendar(start as int),
    ensures
        can_be_dates(start, dates@),
{
    let starts = shown_starts(start);
    let mut dates: Vec<Option<String>> = Vec::new();
    let mut k: usize = 0;
    while k < starts.len()
        invariant
            k <= starts@.len(),
            starts@.len() == DAYS_SHOWN,
            forall|j: int|
                0 <= j < DAYS_SHOWN ==> #[trigger] starts@[j] == start - (DAYS_SHOWN - 1 - j)
                    * DAY,
            dates@.len() == k,
            forall|j: int|
                0 <= j < k ==> ((#[trigger] dates@[j]) matches Some(date) ==> clock::is_date(
                    start - (DAYS_SHOWN - 1 - j) * DAY,
                    date@,
                )),
        decreases starts@.len() - k,
    {
        dates.push(local_date(starts[k]));
        k += 1;
    }
    dates
}

/// Whether a calendar can be that of a machine: of its time, of a day that
/// began at a midnight of that time, where there is one, and of dates of the
/// days shown.
pub open spec fn can_be_calendar(calendar: Calendar) -> bool {
    &&& calendar.wf()
    &&& exists|today: Option<i64>, dates: Seq<Option<String>>|
        {
            &&& #[trigger] is_calendar_of(calendar, calendar.now, today, dates)
            &&& today matches Some(start) ==> clock::is_midnight(
                calendar.now as int,
                start as int,
            ) && can_be_dates(start, dates)
        }
}

/// Whether a calendar and the days of records can be those of a machine.
pub open spec fn can_be_local(
    records: Seq<UsageRecord>,
    days: Seq<Option<String>>,
    calendar: Calendar,
) -> bool {
    &&& can_be_calendar(calendar)
    &&& days.len() == records.len()
    &&& forall|i: int|
        0 <= i < records.len() ==> can_be_day(
            (#[trigger] records[i]).ts,
            calendar.today_start - (DAYS_SHOWN - 1) * DAY,
            days[i],
        )
}

/// Adds up the records for `range`, by the clock and the time zone of the
/// machine. `priced` says which of the records have a price.
pub fn aggregate(
    records: &Vec<UsageRecord>,
    range: UsageRange,
    priced: &Vec<bool>,
    account: Option<&str>,
) -> (stats: UsageStats)
    requires
        range.valid(),
        priced@.len() == records@.len(),
        fits(added(records@, priced@, all_ids(records@.len()))),
    ensures
        exists|days: Vec<Option<String>>, calendar: Calendar|
            can_be_local(records@, days@, calendar) && #[trigger] is_stats(
                Book { records, priced, days: &days },
                range,
                account is None,
                calendar,
                stats,
            ),
{
    let now: i64 = clock::now().secs;
    let today: Option<i64> = local_midnight(now);
    let dates = match today {
        Some(start) => dates_of(start),
        None => Vec::new(),
    };
    let calendar = calendar_of(now, today, &dates);
    assert(is_calendar_of(calendar, calendar.now, today, dates@));
    let floor: i64 = calendar.today_start - 363 * DAY;
    let mut days: Vec<Option<String>> = Vec::new();
    let mut i: usize = 0;
    while i < records.len()
        invariant
            i <= records@.len(),
            days@.len() == i,
            forall|j: int|
                0 <= j < i ==> can_be_day((#[trigger] records@[j]).ts, floor as int, days@[j]),
        decreases records@.len() - i,
    {
        days.push(day_of(records[i].ts, floor));
        i += 1;
    }
    let book = Book { records, priced, days: &days };
    proof {
        lemma_sums_fit(book, range, calendar);
    }
    let stats = aggregate_on(book, range, account, &calendar);
    assert(can_be_local(records@, days@, calendar));
    assert(is_stats(book, range, account is None, calendar, stats));
    stats
}

// ---------------------------------------------------------------------------
// Laws
// ---------------------------------------------------------------------------

/// Two tables of the same records by the same field, both with the largest
/// total first, hold the same keys with the same totals in the same places.
pub proof fn a_ranking_is_unique(
    book: Book,
    field: Field,
    ids: Seq<usize>,
    a: Seq<Entry>,
    b: Seq<Entry>,
    at: int,
)
    requires
        is_ranking(book, field, ids, a),
        is_ranking(book, field, ids, b),
        0 <= at < a.len(),
    ensures
        at < b.len(),
        a[at].key() == b[at].key(),
        a[at].aggregate.total == b[at].aggregate.total,
    decreases at,
{
    // Both have a line for each key, with the same total.
    let here = a[at].key();
    lemma_line_of(book, field, ids, a, b, at);
    let q = choose|q: int| 0 <= q < b.len() && (#[trigger] b[q]).key() == here;
    assert(b[q].aggregate.total == a[at].aggregate.total);
    if at < b.len() && q > at {
        // What stands there in the other table would outrank this one.
        lemma_line_of(book, field, ids, b, a, at);
        let p = choose|p: int| 0 <= p < a.len() && (#[trigger] a[p]).key() == b[at].key();
        assert(outranks(b[at], b[q]));
        if p < at {
            a_ranking_is_unique(book, field, ids, a, b, p);
            assert(outranks(b[p], b[at]));
            lemma_key_total(b[p].key(), b[at].key());
        } else if p > at {
            assert(outranks(a[at], a[p]));
            lemma_key_total(a[at].key(), a[p].key());
        } else {
            lemma_key_total(b[at].key(), b[q].key());
        }
    } else if q < at {
        a_ranking_is_unique(book, field, ids, a, b, q);
        assert(outranks(a[q], a[at]));
        lemma_key_total(a[q].key(), a[at].key());
    }
}

proof fn lemma_line_of(
    book: Book,
    field: Field,
    ids: Seq<usize>,
    a: Seq<Entry>,
    b: Seq<Entry>,
    at: int,
)
    requires
        is_ranking(book, field, ids, a),
        is_ranking(book, field, ids, b),
        0 <= at < a.len(),
    ensures
        has_line(b, a[at].key()),
        forall|q: int|
            0 <= q < b.len() && (#[trigger] b[q]).key() == a[at].key() ==> b[q].aggregate.total
                == a[at].aggregate.total,
{
    let key = a[at].key();
    let members = ids.filter(having(book, field, key));
    assert(members.len() > 0);
    lemma_filtered_source(ids, having(book, field, key), 0);
    let n = choose|n: int| 0 <= n < ids.len() && ids[n] == members[0];
    assert(has_line(b, key_of(book, field, ids[n])));
    assert forall|q: int| 0 <= q < b.len() && (#[trigger] b[q]).key() == key implies b[q].aggregate.total
        == a[at].aggregate.total by {
        assert(b[q].aggregate.is(summed(book, members)));
        assert(a[at].aggregate.is(summed(book, members)));
    }
}

/// What is counted of records.
pub enum Measure {
    Requests,
    Prompt,
    Completion,
    CacheRead,
    Total,
    /// The records that have a price.
    Costed,
}

/// What a sum is in one measure.
pub open spec fn in_measure(sums: Sums, measure: Measure) -> nat {
    match measure {
        Measure::Requests => sums.requests,
        Measure::Prompt => sums.prompt,
        Measure::Completion => sums.completion,
        Measure::CacheRead => sums.cache_read,
        Measure::Total => sums.total,
        Measure::Costed => sums.costed.len(),
    }
}

/// What a line says in one measure.
pub open spec fn line_says(aggregate: UsageAggregate, measure: Measure) -> nat {
    match measure {
        Measure::Requests => aggregate.requests as nat,
        Measure::Prompt => aggregate.prompt as nat,
        Measure::Completion => aggregate.completion as nat,
        Measure::CacheRead => aggregate.cache_read as nat,
        Measure::Total => aggregate.total as nat,
        Measure::Costed => aggregate.costed_requests as nat,
    }
}

/// What the lines of a table add up to in one measure.
pub open spec fn table_sum(entries: Seq<Entry>, measure: Measure) -> nat
    decreases entries.len(),
{
    if entries.len() == 0 {
        0
    } else {
        table_sum(entries.drop_last(), measure) + line_says(entries.last().aggregate, measure)
    }
}

/// Whether no key has two lines.
pub open spec fn keys_distinct(entries: Seq<Entry>) -> bool {
    forall|i: int, j: int|
        0 <= i < j < entries.len() ==> (#[trigger] entries[i]).key() != (#[trigger] entries[j]).key()
}

/// The lines of a table add up to the whole: each record is counted in exactly
/// one of them.
pub proof fn a_table_adds_up(
    book: Book,
    field: Field,
    ids: Seq<usize>,
    entries: Seq<Entry>,
    measure: Measure,
)
    requires
        sums_right(book, field, ids, entries),
        all_listed(book, field, ids, entries),
        keys_distinct(entries),
    ensures
        table_sum(entries, measure) == in_measure(summed(book, ids), measure),
{
    let keys = entries.map_values(|e: Entry| e.key());
    assert forall|k: int| 0 <= k < ids.len() implies keys.contains(
        key_of(book, field, #[trigger] ids[k]),
    ) by {
        let key = key_of(book, field, ids[k]);
        assert(has_line(entries, key));
        let e = choose|e: int| 0 <= e < entries.len() && (#[trigger] entries[e]).key() == key;
        assert(keys[e] == key);
    }
    assert forall|i: int, j: int| 0 <= i < j < keys.len() implies #[trigger] keys[i]
        != #[trigger] keys[j] by {
        assert(entries[i].key() != entries[j].key());
    }
    lemma_parts_add_up(book, field, ids, keys, measure);
    lemma_table_sum(book, field, ids, entries, measure);
}

/// What the records of each key add up to.
spec fn parts_sum(
    book: Book,
    field: Field,
    ids: Seq<usize>,
    keys: Seq<(Seq<char>, Seq<char>)>,
    measure: Measure,
) -> nat
    decreases keys.len(),
{
    if keys.len() == 0 {
        0
    } else {
        parts_sum(book, field, ids, keys.drop_last(), measure) + in_measure(
            summed(book, ids.filter(having(book, field, keys.last()))),
            measure,
        )
    }
}

proof fn lemma_table_sum(
    book: Book,
    field: Field,
    ids: Seq<usize>,
    entries: Seq<Entry>,
    measure: Measure,
)
    requires
        sums_right(book, field, ids, entries),
    ensures
        table_sum(entries, measure) == parts_sum(
            book,
            field,
            ids,
            entries.map_values(|e: Entry| e.key()),
            measure,
        ),
    decreases entries.len(),
{
    if entries.len() > 0 {
        let rest = entries.drop_last();
        let last = entries[entries.len() - 1];
        assert(last.aggregate.is(summed(book, ids.filter(having(book, field, last.key())))));
        assert(sums_right(book, field, ids, rest)) by {
            assert forall|e: int| 0 <= e < rest.len() implies {
                let members = ids.filter(having(book, field, (#[trigger] rest[e]).key()));
                members.len() > 0 && rest[e].aggregate.is(summed(book, members))
            } by {
                assert(rest[e] == entries[e]);
            }
        }
        lemma_table_sum(book, field, ids, rest, measure);
        assert(entries.map_values(|e: Entry| e.key()).drop_last() =~= rest.map_values(
            |e: Entry| e.key(),
        ));
    }
}

/// One record more is counted once where its key is among the keys.
proof fn lemma_part_step(
    book: Book,
    field: Field,
    ids: Seq<usize>,
    keys: Seq<(Seq<char>, Seq<char>)>,
    measure: Measure,
)
    requires
        ids.len() > 0,
        forall|i: int, j: int|
            0 <= i < j < keys.len() ==> #[trigger] keys[i] != #[trigger] keys[j],
    ensures
        parts_sum(book, field, ids, keys, measure) == parts_sum(
            book,
            field,
            ids.drop_last(),
            keys,
            measure,
        ) + (if keys.contains(key_of(book, field, ids.last())) {
            in_measure(summed(book, ids), measure) - in_measure(
                summed(book, ids.drop_last()),
                measure,
            )
        } else {
            0
        }),
    decreases keys.len(),
{
    if keys.len() > 0 {
        let key = key_of(book, field, ids.last());
        let rest = keys.drop_last();
        lemma_part_step(book, field, ids, rest, measure);
        lemma_having_step(book, field, ids, ids.len() - 1, keys.last());
        assert(ids.take(ids.len() as int) =~= ids);
        assert(ids.take(ids.len() - 1) =~= ids.drop_last());
        let part = ids.drop_last().filter(having(book, field, keys.last()));
        if key == keys.last() {
            assert(part.push(ids.last()).drop_last() =~= part);
            assert(!rest.contains(key)) by {
                if rest.contains(key) {
                    let i = choose|i: int| 0 <= i < rest.len() && rest[i] == key;
                    assert(keys[i] != keys[keys.len() - 1]);
                }
            }
            assert(keys[keys.len() - 1] == key);
        } else {
            assert(keys.contains(key) == rest.contains(key)) by {
                if keys.contains(key) {
                    let i = choose|i: int| 0 <= i < keys.len() && keys[i] == key;
                    assert(rest[i] == key);
                }
                if rest.contains(key) {
                    let i = choose|i: int| 0 <= i < rest.len() && rest[i] == key;
                    assert(keys[i] == key);
                }
            }
        }
    }
}

proof fn lemma_parts_add_up(
    book: Book,
    field: Field,
    ids: Seq<usize>,
    keys: Seq<(Seq<char>, Seq<char>)>,
    measure: Measure,
)
    requires
        forall|i: int, j: int|
            0 <= i < j < keys.len() ==> #[trigger] keys[i] != #[trigger] keys[j],
        forall|k: int|
            0 <= k < ids.len() ==> keys.contains(key_of(book, field, #[trigger] ids[k])),
    ensures
        parts_sum(book, field, ids, keys, measure) == in_measure(summed(book, ids), measure),
    decreases ids.len(),
{
    if ids.len() == 0 {
        lemma_no_parts(book, field, ids, keys, measure);
    } else {
        let rest = ids.drop_last();
        assert forall|k: int| 0 <= k < rest.len() implies keys.contains(
            key_of(book, field, #[trigger] rest[k]),
        ) by {
            assert(rest[k] == ids[k]);
        }
        lemma_parts_add_up(book, field, rest, keys, measure);
        lemma_part_step(book, field, ids, keys, measure);
        assert(keys.contains(key_of(book, field, ids[ids.len() - 1])));
    }
}

proof fn lemma_no_parts(
    book: Book,
    field: Field,
    ids: Seq<usize>,
    keys: Seq<(Seq<char>, Seq<char>)>,
    measure: Measure,
)
    requires
        ids.len() == 0,
    ensures
        parts_sum(book, field, ids, keys, measure) == 0,
    decreases keys.len(),
{
    if keys.len() > 0 {
        lemma_no_parts(book, field, ids, keys.drop_last(), measure);
        reveal(Seq::filter);
    }
}

/// The models of a source add up to the source, and so do the sources to the
/// whole range, in every measure.
pub proof fn sources_add_up(
    book: Book,
    ids: Seq<usize>,
    sources: Seq<SourceUsage>,
    at: int,
    measure: Measure,
)
    requires
        are_sources(book, ids, sources),
        0 <= at < sources.len(),
    ensures
        table_sum(source_entries(sources), measure) == in_measure(summed(book, ids), measure),
        table_sum(model_entries(sources[at].models@), measure) == line_says(
            sources[at].aggregate,
            measure,
        ),
{
    let entries = source_entries(sources);
    lemma_sources_distinct(book, ids, sources);
    a_table_adds_up(book, Field::Source, ids, entries, measure);
    let members = of_source(book, ids, sources[at].src@);
    assert(are_models(book, members, sources[at].models@));
    let models = model_entries(sources[at].models@);
    lemma_ranking_distinct(book, Field::Model, members, models);
    a_table_adds_up(book, Field::Model, members, models, measure);
    assert(entries[at].aggregate.is(summed(book, members)));
}

/// The models of a kind add up to the kind, and so do the kinds to the records
/// that are of a kind, in every measure.
pub proof fn kinds_add_up(
    book: Book,
    ids: Seq<usize>,
    kinds: Seq<KindUsage>,
    at: int,
    measure: Measure,
)
    requires
        are_kinds(book, ids, kinds),
        0 <= at < kinds.len(),
    ensures
        table_sum(kind_entries(kinds), measure) == in_measure(
            summed(book, of_a_kind(book, ids)),
            measure,
        ),
        table_sum(model_entries(kinds[at].models@), measure) == line_says(
            kinds[at].aggregate,
            measure,
        ),
{
    let entries = kind_entries(kinds);
    let picked = of_a_kind(book, ids);
    lemma_ranking_distinct(book, Field::Kind, picked, entries);
    a_table_adds_up(book, Field::Kind, picked, entries, measure);
    let members = picked.filter(having(book, Field::Kind, (kinds[at].kind@, Seq::empty())));
    let models = model_entries(kinds[at].models@);
    assert(are_models(book, members, kinds[at].models@));
    lemma_ranking_distinct(book, Field::Model, members, models);
    a_table_adds_up(book, Field::Model, members, models, measure);
    assert(entries[at].key() == (kinds[at].kind@, Seq::<char>::empty()));
    assert(entries[at].aggregate.is(summed(book, members)));
}

/// The accounts add up to the whole range, in every measure.
pub proof fn accounts_add_up(
    book: Book,
    ids: Seq<usize>,
    accounts: Seq<AccountUsage>,
    measure: Measure,
)
    requires
        is_ranking(book, Field::Account, ids, account_entries(accounts)),
    ensures
        table_sum(account_entries(accounts), measure) == in_measure(summed(book, ids), measure),
{
    let entries = account_entries(accounts);
    lemma_ranking_distinct(book, Field::Account, ids, entries);
    a_table_adds_up(book, Field::Account, ids, entries, measure);
}

/// The sources, and the accounts where the range is split by account, add up
/// to the totals of the range, in every measure.
pub proof fn stats_add_up(
    book: Book,
    range: UsageRange,
    per_account: bool,
    calendar: Calendar,
    stats: UsageStats,
    measure: Measure,
)
    requires
        is_stats(book, range, per_account, calendar, stats),
    ensures
        table_sum(source_entries(stats.sources@), measure) == line_says(stats.totals, measure),
        per_account ==> table_sum(account_entries(stats.accounts@), measure) == line_says(
            stats.totals,
            measure,
        ),
{
    let start = match range.window(calendar.now as int, calendar.today_start as int) {
        Some((start, _)) => Some(start),
        None => None,
    };
    let ids = between(book, start, None);
    lemma_sources_distinct(book, ids, stats.sources@);
    a_table_adds_up(book, Field::Source, ids, source_entries(stats.sources@), measure);
    if per_account {
        accounts_add_up(book, ids, stats.accounts@, measure);
    }
}

proof fn lemma_sources_distinct(book: Book, ids: Seq<usize>, sources: Seq<SourceUsage>)
    requires
        are_sources(book, ids, sources),
    ensures
        keys_distinct(source_entries(sources)),
{
    let entries = source_entries(sources);
    assert forall|i: int, j: int| 0 <= i < j < entries.len() implies (#[trigger] entries[i]).key()
        != (#[trigger] entries[j]).key() by {
        assert(source_before(sources[i].src@, sources[j].src@));
        text::lemma_precedes_total(sources[i].src@, sources[j].src@);
    }
}

proof fn lemma_ranking_distinct(book: Book, field: Field, ids: Seq<usize>, entries: Seq<Entry>)
    requires
        is_ranking(book, field, ids, entries),
    ensures
        keys_distinct(entries),
{
    assert forall|i: int, j: int| 0 <= i < j < entries.len() implies (#[trigger] entries[i]).key()
        != (#[trigger] entries[j]).key() by {
        assert(outranks(entries[i], entries[j]));
        lemma_key_total(entries[i].key(), entries[j].key());
        lemma_line_of(book, field, ids, entries, entries, i);
    }
}

} // verus!
