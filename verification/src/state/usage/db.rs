//! The ledger.

use vstd::prelude::*;

use crate::clock;
use crate::table;
use crate::text::same_text;

use super::stats::{self, aggregate, UsageRange, UsageStats};
use super::{Usage, UsageMeta, UsageRecord, UsageSnapshot, UsageState};

verus! {

/// The ledger: sums over a lifetime, and each call in the order in which they
/// were written down.
#[derive(Debug)]
pub struct UsageDb {
    pub records: Vec<UsageRecord>,
    /// None before the first call.
    pub totals: Option<UsageState>,
    /// Whether the sums of the old file were taken over.
    pub totals_imported: bool,
    /// How much of the old file of calls was taken over, in bytes.
    pub history_offset: u64,
}

/// A count as it is kept: in 63 bits, and 0 where it does not fit.
pub open spec fn kept(n: u64) -> u64 {
    if n <= i64::MAX {
        n
    } else {
        0
    }
}

/// A count as it is kept.
pub fn keep(n: u64) -> (r: u64)
    ensures
        r == kept(n),
{
    if n <= i64::MAX as u64 {
        n
    } else {
        0
    }
}

/// Whether `record` is a call as it is written down.
pub open spec fn is_record(
    record: UsageRecord,
    usage: Usage,
    meta: UsageMeta,
    aux: bool,
    account: Seq<char>,
    ts: i64,
) -> bool {
    &&& record.ts == ts
    &&& record.src@ == if meta.source@.len() == 0 {
        stats::AGENT@
    } else {
        meta.source@
    }
    &&& record.provider@ == text_or_none(meta.provider)
    &&& record.model@ == text_or_none(meta.model)
    &&& record.prompt == kept(usage.prompt_tokens)
    &&& record.completion == kept(usage.completion_tokens)
    &&& record.total == kept(usage.effective_total() as u64)
    &&& record.cache_read == kept(usage.cache_read_tokens)
    &&& record.cache_write == kept(usage.cache_write_tokens)
    &&& record.aux == aux
    &&& record.kind@ == text_or_none(meta.kind)
    &&& record.acct@ == account
}

/// A text, empty where there is none.
pub open spec fn text_or_none(text: Option<&str>) -> Seq<char> {
    match text {
        Some(text) => text@,
        None => Seq::empty(),
    }
}

/// A text, empty where there is none.
fn text_or_empty(text: Option<&str>) -> (r: String)
    ensures
        r@ == text_or_none(text),
{
    match text {
        Some(text) => text.to_owned(),
        None => {
            let r = String::new();
            assert(r@ =~= Seq::empty());
            r
        },
    }
}

/// The sums, all zero before the first call.
pub open spec fn totals_or_zero(totals: Option<UsageState>) -> UsageState {
    match totals {
        Some(totals) => totals,
        None => UsageState::zero(),
    }
}

/// The sums with a call more.
pub open spec fn with_call(totals: UsageState, usage: Usage, is_conversation: bool) -> UsageState {
    UsageState {
        requests: (totals.requests + 1) as u64,
        prompt_tokens: (totals.prompt_tokens + usage.prompt_tokens) as u64,
        completion_tokens: (totals.completion_tokens + usage.completion_tokens) as u64,
        total_tokens: (totals.total_tokens + usage.effective_total()) as u64,
        conversation_tokens: if is_conversation {
            (totals.conversation_tokens + usage.effective_total()) as u64
        } else {
            totals.conversation_tokens
        },
        cache_read_tokens: (totals.cache_read_tokens + usage.cache_read_tokens) as u64,
        cache_write_tokens: (totals.cache_write_tokens + usage.cache_write_tokens) as u64,
        reasoning_tokens: (totals.reasoning_tokens + usage.reasoning_tokens) as u64,
        last_usage: Some(usage),
        last_conversation_usage: if is_conversation {
            Some(usage)
        } else {
            totals.last_conversation_usage
        },
    }
}

/// Whether the sums have room for a call.
pub open spec fn has_room(totals: UsageState, usage: Usage, is_conversation: bool) -> bool {
    &&& usage.valid()
    &&& totals.requests < u64::MAX
    &&& totals.prompt_tokens + usage.prompt_tokens <= u64::MAX
    &&& totals.completion_tokens + usage.completion_tokens <= u64::MAX
    &&& totals.total_tokens + usage.effective_total() <= u64::MAX
    &&& is_conversation ==> totals.conversation_tokens + usage.effective_total() <= u64::MAX
    &&& totals.cache_read_tokens + usage.cache_read_tokens <= u64::MAX
    &&& totals.cache_write_tokens + usage.cache_write_tokens <= u64::MAX
    &&& totals.reasoning_tokens + usage.reasoning_tokens <= u64::MAX
}

/// Whether a call is of an account, or of any where none is asked for.
pub open spec fn of_account(record: UsageRecord, account: Option<&str>) -> bool {
    account matches Some(account) ==> record.acct@ == account@
}

/// Whether a call is asked for. An empty source or model asks for any, and a
/// call without a source is the agent's.
pub open spec fn is_asked(
    record: UsageRecord,
    src: Option<&str>,
    model: Option<&str>,
    account: Option<&str>,
) -> bool {
    &&& of_account(record, account)
    &&& src matches Some(src) ==> src@.len() == 0 || src@ == if record.src@.len() == 0 {
        stats::AGENT@
    } else {
        record.src@
    }
    &&& model matches Some(model) ==> model@.len() == 0 || record.model@ == model@
}

/// The calls that are asked for, by number.
pub open spec fn asked(
    records: Seq<UsageRecord>,
    src: Option<&str>,
    model: Option<&str>,
    account: Option<&str>,
) -> Seq<usize> {
    stats::all_ids(records.len()).filter(
        |i: usize| is_asked(records[i as int], src, model, account),
    )
}

/// Whether a call comes before another where the latest comes first, and the
/// one that was written down first among those of the same second.
pub open spec fn more_recent(records: Seq<UsageRecord>, a: usize, b: usize) -> bool {
    records[a as int].ts > records[b as int].ts || (records[a as int].ts == records[b as int].ts
        && a < b)
}

/// Whether `order` holds `ids`, the latest call first.
pub open spec fn latest_first(records: Seq<UsageRecord>, ids: Seq<usize>, order: Seq<usize>) -> bool {
    &&& order.len() == ids.len()
    &&& forall|i: int, j: int|
        0 <= i < j < order.len() ==> more_recent(records, #[trigger] order[i], #[trigger] order[j])
    &&& forall|i: int| 0 <= i < order.len() ==> ids.contains(#[trigger] order[i])
}

/// Whether two lists of calls hold the same, one by one.
pub open spec fn are_calls(
    records: Seq<UsageRecord>,
    ids: Seq<usize>,
    calls: Seq<UsageRecord>,
) -> bool {
    &&& calls.len() == ids.len()
    &&& forall|k: int| 0 <= k < calls.len() ==> #[trigger] calls[k] == records[ids[k] as int]
}

/// The first `limit` of a list.
pub open spec fn at_most_first(ids: Seq<usize>, limit: int) -> Seq<usize> {
    if ids.len() > limit {
        ids.take(limit)
    } else {
        ids
    }
}

/// What giving the calls of a provider to another comes to.
pub open spec fn are_renamed(
    before: UsageDb,
    after: UsageDb,
    old_name: Seq<char>,
    new_name: Seq<char>,
    count: int,
) -> bool {
    &&& after.records@.len() == before.records@.len()
    &&& old_name == new_name || old_name.len() == 0 ==> count == 0 && after == before
    &&& !(old_name == new_name || old_name.len() == 0) ==> {
        &&& count == before.records@.filter(
            |record: UsageRecord| record.provider@ == old_name,
        ).len()
        &&& forall|i: int|
            0 <= i < before.records@.len() ==> is_renamed(
                #[trigger] before.records@[i],
                old_name,
                new_name,
                after.records@[i],
            )
    }
    &&& after == (UsageDb { records: after.records, ..before })
}

/// Whether `after` is `before` without the last call.
pub open spec fn is_forgotten(before: UsageDb, after: UsageDb) -> bool {
    &&& after.totals == Some(
        UsageState {
            last_usage: None,
            last_conversation_usage: None,
            ..totals_or_zero(before.totals)
        },
    )
    &&& after == (UsageDb { totals: after.totals, ..before })
}

/// Whether `after` is `before` at the beginning of a conversation.
pub open spec fn is_reset(before: UsageDb, after: UsageDb) -> bool {
    &&& after.totals == Some(
        UsageState {
            conversation_tokens: 0,
            last_usage: None,
            last_conversation_usage: None,
            ..totals_or_zero(before.totals)
        },
    )
    &&& after == (UsageDb { totals: after.totals, ..before })
}

/// Whether `after` is `before` without its calls.
pub open spec fn is_emptied(before: UsageDb, after: UsageDb) -> bool {
    &&& after.records@.len() == 0
    &&& after.history_offset == 0
    &&& after.totals == before.totals
    &&& after.totals_imported == before.totals_imported
}

/// Whether `after` is `before` once the sums of an old file were taken over,
/// where that was still to be done.
pub open spec fn are_taken_over(
    before: UsageDb,
    state: Option<UsageState>,
    after: UsageDb,
) -> bool {
    &&& after.totals == (if before.totals_imported || before.totals is Some {
        before.totals
    } else {
        state
    })
    &&& after.totals_imported
    &&& after.records == before.records
    &&& after.history_offset == before.history_offset
}

impl UsageDb {
    /// An empty ledger.
    pub fn new() -> (db: Self)
        ensures
            db.records@.len() == 0,
            db.totals is None,
            !db.totals_imported,
            db.history_offset == 0,
    {
        UsageDb { records: Vec::new(), totals: None, totals_imported: false, history_offset: 0 }
    }

    /// The sums, all zero before the first call.
    fn state(&self) -> (state: UsageState)
        ensures
            state == totals_or_zero(self.totals),
    {
        match self.totals {
            Some(totals) => totals,
            None => UsageState::new(),
        }
    }

    /// Adds a call to the sums. One that is not part of a conversation is not
    /// counted as one, and does not take the place of the last that was.
    pub fn add(&mut self, usage: &Usage, is_conversation: bool)
        requires
            has_room(totals_or_zero(old(self).totals), *usage, is_conversation),
        ensures
            final(self).totals == Some(
                with_call(totals_or_zero(old(self).totals), *usage, is_conversation),
            ),
            *final(self) == (UsageDb { totals: final(self).totals, ..*old(self) }),
    {
        let mut state = self.state();
        let total: u64 = usage.effective_total_tokens();
        state.requests = state.requests + 1;
        state.prompt_tokens = state.prompt_tokens + usage.prompt_tokens;
        state.completion_tokens = state.completion_tokens + usage.completion_tokens;
        state.total_tokens = state.total_tokens + total;
        state.cache_read_tokens = state.cache_read_tokens + usage.cache_read_tokens;
        state.cache_write_tokens = state.cache_write_tokens + usage.cache_write_tokens;
        state.reasoning_tokens = state.reasoning_tokens + usage.reasoning_tokens;
        state.last_usage = Some(*usage);
        if is_conversation {
            state.conversation_tokens = state.conversation_tokens + total;
            state.last_conversation_usage = Some(*usage);
        }
        self.totals = Some(state);
    }

    /// What the sums are.
    pub fn snapshot(&self) -> (snapshot: UsageSnapshot)
        ensures
            snapshot == totals_or_zero(self.totals).as_snapshot(),
    {
        self.state().snapshot()
    }

    /// Forgets the last call.
    pub fn clear_last_usage(&mut self)
        ensures
            is_forgotten(*old(self), *final(self)),
    {
        let mut state = self.state();
        state.last_usage = None;
        state.last_conversation_usage = None;
        self.totals = Some(state);
    }

    /// Starts a conversation: nothing of it was used yet.
    pub fn reset_conversation(&mut self)
        ensures
            is_reset(*old(self), *final(self)),
    {
        let mut state = self.state();
        state.conversation_tokens = 0;
        state.last_usage = None;
        state.last_conversation_usage = None;
        self.totals = Some(state);
    }

    /// Writes a call down, at the current time.
    pub fn record(&mut self, usage: &Usage, meta: UsageMeta, aux: bool, account: &str)
        requires
            usage.valid(),
        ensures
            final(self).records@.len() == old(self).records@.len() + 1,
            final(self).records@.drop_last() == old(self).records@,
            exists|ts: i64|
                #[trigger] is_record(
                    final(self).records@.last(),
                    *usage,
                    meta,
                    aux,
                    account@,
                    ts,
                ),
            *final(self) == (UsageDb { records: final(self).records, ..*old(self) }),
    {
        let now: i64 = clock::now().secs;
        self.record_at(usage, meta, aux, account, now);
        proof {
            assert(self.records@.drop_last() =~= old(self).records@);
        }
    }

    /// Writes a call down.
    pub fn record_at(&mut self, usage: &Usage, meta: UsageMeta, aux: bool, account: &str, ts: i64)
        requires
            usage.valid(),
        ensures
            final(self).records@ == old(self).records@.push(final(self).records@.last()),
            is_record(final(self).records@.last(), *usage, meta, aux, account@, ts),
            *final(self) == (UsageDb { records: final(self).records, ..*old(self) }),
    {
        let src = if meta.source.unicode_len() == 0 {
            stats::AGENT.to_owned()
        } else {
            meta.source.to_owned()
        };
        let record = UsageRecord {
            ts,
            src,
            provider: text_or_empty(meta.provider),
            model: text_or_empty(meta.model),
            prompt: keep(usage.prompt_tokens),
            completion: keep(usage.completion_tokens),
            total: keep(usage.effective_total_tokens()),
            cache_read: keep(usage.cache_read_tokens),
            cache_write: keep(usage.cache_write_tokens),
            aux,
            kind: text_or_empty(meta.kind),
            acct: account.to_owned(),
        };
        self.records.push(record);
    }

    /// Gives the calls of provider `old_name` to `new_name`, and says how many
    /// there were.
    pub fn rename_provider(&mut self, old_name: &str, new_name: &str) -> (count: usize)
        ensures
            are_renamed(*old(self), *final(self), old_name@, new_name@, count as int),
    {
        if same_text(old_name, new_name) || old_name.unicode_len() == 0 {
            return 0;
        }
        let ghost before = self.records@;
        let ghost chosen = |record: UsageRecord| record.provider@ == old_name@;
        let mut count: usize = 0;
        let mut i: usize = 0;
        proof {
            reveal(Seq::filter);
            assert(before.take(0).filter(chosen) =~= Seq::empty());
        }
        while i < self.records.len()
            invariant
                i <= self.records@.len(),
                self.records@.len() == before.len(),
                chosen == (|record: UsageRecord| record.provider@ == old_name@),
                count == before.take(i as int).filter(chosen).len(),
                count <= i,
                forall|k: int|
                    0 <= k < i ==> is_renamed(
                        #[trigger] before[k],
                        old_name@,
                        new_name@,
                        self.records@[k],
                    ),
                forall|k: int| i <= k < before.len() ==> self.records@[k] == #[trigger] before[k],
                *self == (UsageDb { records: self.records, ..*old(self) }),
            decreases self.records@.len() - i,
        {
            proof {
                reveal(Seq::filter);
                assert(before.take(i + 1).drop_last() =~= before.take(i as int));
                assert(before.take(i + 1).last() == before[i as int]);
            }
            let ghost here = self.records@;
            if same_text(self.records[i].provider.as_str(), old_name) {
                let record = &mut self.records[i];
                record.provider = new_name.to_owned();
                count += 1;
                proof {
                    assert(self.records@ =~= here.update(i as int, self.records@[i as int]));
                }
            }
            i += 1;
        }
        assert(before.take(before.len() as int) =~= before);
        count
    }

    /// Forgets the calls. The sums stay: they are all that is left to say what
    /// was ever used.
    pub fn clear_history(&mut self)
        ensures
            is_emptied(*old(self), *final(self)),
    {
        self.records = Vec::new();
        self.history_offset = 0;
    }

    /// The calls in the order in which they were written down, of one account
    /// where one is given.
    pub fn records(&self, account: Option<&str>) -> (records: Vec<UsageRecord>)
        ensures
            records@ == self.records@.filter(|record: UsageRecord| of_account(record, account)),
    {
        let rows = &self.records;
        let ghost keep = |record: UsageRecord| of_account(record, account);
        let mut out: Vec<UsageRecord> = Vec::new();
        let mut i: usize = 0;
        proof {
            reveal(Seq::filter);
            assert(rows@.take(0).filter(keep) =~= Seq::empty());
        }
        while i < rows.len()
            invariant
                i <= rows@.len(),
                keep == (|record: UsageRecord| of_account(record, account)),
                out@ =~= rows@.take(i as int).filter(keep),
            decreases rows@.len() - i,
        {
            proof {
                reveal(Seq::filter);
                assert(rows@.take(i + 1).drop_last() =~= rows@.take(i as int));
            }
            let own = match account {
                Some(account) => same_text(rows[i].acct.as_str(), account),
                None => true,
            };
            if own {
                out.push(rows[i].copy());
            }
            i += 1;
        }
        assert(rows@.take(rows@.len() as int) =~= rows@);
        out
    }

    /// What the calls add up to for `range`, of one account where one is
    /// given. `priced` says of each of those calls whether it has a price.
    pub fn stats(&self, range: UsageRange, priced: &Vec<bool>, account: Option<&str>) -> (stats:
        UsageStats)
        requires
            range.valid(),
            priced@.len() == self.records@.filter(
                |record: UsageRecord| of_account(record, account),
            ).len(),
            stats::fits(
                stats::added(
                    self.records@.filter(|record: UsageRecord| of_account(record, account)),
                    priced@,
                    stats::all_ids(priced@.len()),
                ),
            ),
        ensures
            exists|records: Vec<UsageRecord>, days: Vec<Option<String>>, calendar: stats::Calendar|
                {
                    &&& records@ == self.records@.filter(
                        |record: UsageRecord| of_account(record, account),
                    )
                    &&& stats::can_be_local(records@, days@, calendar)
                    &&& #[trigger] stats::is_stats(
                        stats::Book { records: &records, priced, days: &days },
                        range,
                        account is None,
                        calendar,
                        stats,
                    )
                },
    {
        let records = self.records(account);
        aggregate(&records, range, priced, account)
    }

    /// The last `limit` calls that are asked for, the latest first.
    pub fn details(
        &self,
        limit: usize,
        src: Option<&str>,
        model: Option<&str>,
        account: Option<&str>,
    ) -> (calls: Vec<UsageRecord>)
        ensures
            exists|order: Seq<usize>|
                {
                    &&& #[trigger] latest_first(
                        self.records@,
                        asked(self.records@, src, model, account),
                        order,
                    )
                    &&& are_calls(
                        self.records@,
                        at_most_first(order, limit as int),
                        calls@,
                    )
                },
    {
        let order = self.in_order(src, model, account);
        let mut calls: Vec<UsageRecord> = Vec::new();
        let mut k: usize = 0;
        let ghost ids = asked(self.records@, src, model, account);
        let count: usize = self.records.len();
        while k < order.len() && k < limit
            invariant
                count == self.records@.len(),
                k <= order@.len(),
                k <= limit,
                ids == asked(self.records@, src, model, account),
                latest_first(self.records@, ids, order@),
                are_calls(self.records@, order@.take(k as int), calls@),
            decreases order@.len() - k,
        {
            proof {
                assert(ids.contains(order@[k as int]));
                lemma_asked_in_range(self.records@, src, model, account, order@[k as int]);
            }
            let ghost before = calls@;
            calls.push(self.records[order[k]].copy());
            proof {
                let taken = order@.take(k + 1);
                assert forall|n: int| 0 <= n < calls@.len() implies #[trigger] calls@[n]
                    == self.records@[taken[n] as int] by {
                    if n < k {
                        assert(calls@[n] == before[n]);
                        assert(order@.take(k as int)[n] == taken[n]);
                    }
                }
            }
            k += 1;
        }
        proof {
            assert(order@.take(k as int) =~= at_most_first(order@, limit as int));
        }
        calls
    }

    /// The numbers of the calls that are asked for, the latest first.
    fn in_order(&self, src: Option<&str>, model: Option<&str>, account: Option<&str>) -> (order: Vec<
        usize,
    >)
        ensures
            latest_first(self.records@, asked(self.records@, src, model, account), order@),
    {
        let rows = &self.records;
        let ghost keep = |i: usize| is_asked(rows@[i as int], src, model, account);
        let mut order: Vec<usize> = Vec::new();
        let mut i: usize = 0;
        proof {
            reveal(Seq::filter);
            assert(stats::all_ids(0).filter(keep) =~= Seq::empty());
        }
        while i < rows.len()
            invariant
                i <= rows@.len(),
                *rows == self.records,
                keep == (|i: usize| is_asked(rows@[i as int], src, model, account)),
                latest_first(rows@, stats::all_ids(i as nat).filter(keep), order@),
                forall|n: int| 0 <= n < order@.len() ==> (#[trigger] order@[n]) < i,
            decreases rows@.len() - i,
        {
            let ghost seen = stats::all_ids(i as nat).filter(keep);
            let ghost now = stats::all_ids((i + 1) as nat).filter(keep);
            proof {
                reveal(Seq::filter);
                assert(stats::all_ids((i + 1) as nat).drop_last() =~= stats::all_ids(i as nat));
                assert(stats::all_ids((i + 1) as nat).last() == i);
            }
            if asks_for(&rows[i], src, model, account) {
                let ghost before = order@;
                let ts: i64 = rows[i].ts;
                let mut at: usize = order.len();
                while at > 0 && rows[order[at - 1]].ts < ts
                    invariant
                        at <= order@.len(),
                        order@ == before,
                        i < rows@.len(),
                        ts == rows@[i as int].ts,
                        forall|n: int| 0 <= n < order@.len() ==> (#[trigger] order@[n]) < i,
                        forall|n: int|
                            at <= n < order@.len() ==> rows@[(#[trigger] order@[n]) as int].ts < ts,
                    decreases at,
                {
                    at -= 1;
                }
                order.insert(at, i);
                proof {
                    assert(now =~= seen.push(i));
                    assert(order@ =~= before.insert(at as int, i));
                    lemma_inserted(rows@, seen, before, at as int, i);
                }
            } else {
                assert(now =~= seen);
            }
            i += 1;
        }
        order
    }
}

/// Whether a call is asked for.
fn asks_for(record: &UsageRecord, src: Option<&str>, model: Option<&str>, account: Option<&str>) -> (r:
    bool)
    ensures
        r == is_asked(*record, src, model, account),
{
    let own = match account {
        Some(account) => same_text(record.acct.as_str(), account),
        None => true,
    };
    let from_src = match src {
        Some(src) => {
            let of = record.src.as_str();
            if src.unicode_len() == 0 {
                true
            } else if of.unicode_len() == 0 {
                same_text(src, stats::AGENT)
            } else {
                same_text(src, of)
            }
        },
        None => true,
    };
    let by_model = match model {
        Some(model) => model.unicode_len() == 0 || same_text(record.model.as_str(), model),
        None => true,
    };
    own && from_src && by_model
}

/// Whether a call was given to another provider.
pub open spec fn is_renamed(
    before: UsageRecord,
    old_name: Seq<char>,
    new_name: Seq<char>,
    after: UsageRecord,
) -> bool {
    if before.provider@ == old_name {
        after == (UsageRecord { provider: after.provider, ..before }) && after.provider@ == new_name
    } else {
        after == before
    }
}

/// The calls that are asked for are calls.
proof fn lemma_asked_in_range(
    records: Seq<UsageRecord>,
    src: Option<&str>,
    model: Option<&str>,
    account: Option<&str>,
    i: usize,
)
    requires
        asked(records, src, model, account).contains(i),
        records.len() <= usize::MAX,
    ensures
        i < records.len(),
{
    let all = stats::all_ids(records.len());
    let keep = |i: usize| is_asked(records[i as int], src, model, account);
    let n = choose|n: int| 0 <= n < all.filter(keep).len() && all.filter(keep)[n] == i;
    all.lemma_filter_contains_rev(keep, i);
    let k = choose|k: int| 0 <= k < all.len() && all[k] == i;
    assert(all[k] == k as usize);
}

proof fn lemma_inserted(
    records: Seq<UsageRecord>,
    ids: Seq<usize>,
    before: Seq<usize>,
    at: int,
    i: usize,
)
    requires
        latest_first(records, ids, before),
        0 <= at <= before.len(),
        at > 0 ==> records[before[at - 1] as int].ts >= records[i as int].ts,
        forall|n: int| 0 <= n < before.len() ==> (#[trigger] before[n]) < i,
        forall|n: int|
            at <= n < before.len() ==> records[(#[trigger] before[n]) as int].ts < records[i as int].ts,
    ensures
        latest_first(records, ids.push(i), before.insert(at, i)),
{
    let after = before.insert(at, i);
    let more = ids.push(i);
    assert(after.len() == more.len());
    let old_place = |n: int|
        if n < at {
            n
        } else {
            n - 1
        };
    assert forall|a: int, b: int| 0 <= a < b < after.len() implies more_recent(
        records,
        #[trigger] after[a],
        #[trigger] after[b],
    ) by {
        if a == at {
            assert(after[b] == before[b - 1]);
        } else if b == at {
            assert(after[a] == before[a]);
            if a < at - 1 {
                assert(more_recent(records, before[a], before[at - 1]));
            }
        } else {
            assert(after[a] == before[old_place(a)]);
            assert(after[b] == before[old_place(b)]);
            assert(more_recent(records, before[old_place(a)], before[old_place(b)]));
        }
    }
    assert forall|n: int| 0 <= n < after.len() implies more.contains(#[trigger] after[n]) by {
        if n == at {
            assert(more[ids.len() as int] == i);
        } else {
            assert(after[n] == before[old_place(n)]);
            assert(ids.contains(before[old_place(n)]));
            let m = choose|m: int| 0 <= m < ids.len() && ids[m] == before[old_place(n)];
            assert(more[m] == after[n]);
        }
    }
}

// ---------------------------------------------------------------------------
// Old files
// ---------------------------------------------------------------------------

/// What is to be done with the old file of calls.
#[derive(Debug, Clone, Copy, PartialEq, Eq, Structural)]
pub enum HistoryStep {
    /// All of it was taken over.
    Nothing,
    /// It is shorter than what was taken over, so that the place no longer
    /// fits: go on from its end.
    Restart(u64),
    /// Read it from here on.
    Read(u64),
}

/// A line of the old file of calls.
#[derive(Debug)]
pub struct HistoryLine {
    /// How long the line is in bytes, with its end.
    pub bytes: u64,
    /// The call it tells of. A line that tells of none is passed over.
    pub record: Option<UsageRecord>,
}

/// What is to be done with an old file of calls of `file_len` bytes.
pub open spec fn history_step(offset: u64, file_len: u64) -> HistoryStep {
    if offset == file_len {
        HistoryStep::Nothing
    } else if file_len < offset {
        HistoryStep::Restart(file_len)
    } else {
        HistoryStep::Read(offset)
    }
}

/// How long lines are together.
pub open spec fn lines_len(lines: Seq<HistoryLine>) -> nat
    decreases lines.len(),
{
    if lines.len() == 0 {
        0
    } else {
        lines_len(lines.drop_last()) + lines.last().bytes as nat
    }
}

/// The calls that lines tell of, with counts as they are kept.
pub open spec fn told_calls(lines: Seq<HistoryLine>) -> Seq<UsageRecord>
    decreases lines.len(),
{
    if lines.len() == 0 {
        Seq::empty()
    } else {
        match lines.last().record {
            Some(record) => told_calls(lines.drop_last()).push(kept_record(record)),
            None => told_calls(lines.drop_last()),
        }
    }
}

/// A call with its counts as they are kept.
pub open spec fn kept_record(record: UsageRecord) -> UsageRecord {
    UsageRecord {
        prompt: kept(record.prompt),
        completion: kept(record.completion),
        total: kept(record.total),
        cache_read: kept(record.cache_read),
        cache_write: kept(record.cache_write),
        ..record
    }
}

proof fn lemma_lines_len(lines: Seq<HistoryLine>, n: int)
    requires
        0 <= n <= lines.len(),
    ensures
        lines_len(lines.take(n)) <= lines_len(lines),
    decreases lines.len(),
{
    if n == lines.len() {
        assert(lines.take(n) =~= lines);
    } else {
        lemma_lines_len(lines.drop_last(), n);
        assert(lines.drop_last().take(n) =~= lines.take(n));
    }
}

impl UsageDb {
    /// Takes the sums of the old file over, once. Sums that are there stay.
    pub fn import_totals(&mut self, state: Option<UsageState>)
        ensures
            are_taken_over(*old(self), state, *final(self)),
    {
        if self.totals_imported {
            return ;
        }
        if self.totals.is_none() {
            self.totals = state;
        }
        self.totals_imported = true;
    }

    /// What is to be done with an old file of calls of `file_len` bytes.
    pub fn plan_history(&self, file_len: u64) -> (step: HistoryStep)
        ensures
            step == history_step(self.history_offset, file_len),
    {
        if self.history_offset == file_len {
            HistoryStep::Nothing
        } else if file_len < self.history_offset {
            HistoryStep::Restart(file_len)
        } else {
            HistoryStep::Read(self.history_offset)
        }
    }

    /// Goes on from `offset` in the old file of calls.
    pub fn restart_history(&mut self, offset: u64)
        ensures
            *final(self) == (UsageDb { history_offset: offset, ..*old(self) }),
    {
        self.history_offset = offset;
    }

    /// Takes the complete lines over that were read from the old file of
    /// calls.
    pub fn import_history(&mut self, lines: Vec<HistoryLine>)
        requires
            old(self).history_offset + lines_len(lines@) <= u64::MAX,
        ensures
            final(self).records@ == old(self).records@ + told_calls(lines@),
            final(self).history_offset == old(self).history_offset + lines_len(lines@),
            final(self).totals == old(self).totals,
            final(self).totals_imported == old(self).totals_imported,
    {
        let mut k: usize = 0;
        proof {
            assert(lines@.take(0) =~= Seq::empty());
            assert(self.records@ + told_calls(lines@.take(0)) =~= self.records@);
        }
        while k < lines.len()
            invariant
                k <= lines@.len(),
                old(self).history_offset + lines_len(lines@) <= u64::MAX,
                self.records@ == old(self).records@ + told_calls(lines@.take(k as int)),
                self.history_offset == old(self).history_offset + lines_len(lines@.take(k as int)),
                self.totals == old(self).totals,
                self.totals_imported == old(self).totals_imported,
            decreases lines@.len() - k,
        {
            let ghost seen = told_calls(lines@.take(k as int));
            proof {
                assert(lines@.take(k + 1).drop_last() =~= lines@.take(k as int));
                assert(lines@.take(k + 1).last() == lines@[k as int]);
                lemma_lines_len(lines@, k + 1);
            }
            self.history_offset = self.history_offset + lines[k].bytes;
            if let Some(record) = &lines[k].record {
                let mut call = record.copy();
                call.prompt = keep(call.prompt);
                call.completion = keep(call.completion);
                call.total = keep(call.total);
                call.cache_read = keep(call.cache_read);
                call.cache_write = keep(call.cache_write);
                let ghost before = self.records@;
                self.records.push(call);
                proof {
                    assert(before.push(call) =~= old(self).records@ + seen.push(call));
                }
            }
            k += 1;
        }
        assert(lines@.take(lines@.len() as int) =~= lines@);
    }
}

/// The bytes of `bytes` up to the end of the last complete line.
pub open spec fn complete(bytes: Seq<u8>) -> Seq<u8>
    decreases bytes.len(),
{
    if bytes.len() == 0 {
        bytes
    } else if bytes.last() == 10 {
        bytes
    } else {
        complete(bytes.drop_last())
    }
}

/// Whether a line is complete: it ends where its only line feed is.
pub open spec fn is_complete(line: Seq<u8>) -> bool {
    &&& line.len() > 0
    &&& line.last() == 10
    &&& forall|i: int| 0 <= i < line.len() - 1 ==> #[trigger] line[i] != 10
}

/// Lines, one after the other.
pub open spec fn strung(lines: Seq<Vec<u8>>) -> Seq<u8>
    decreases lines.len(),
{
    if lines.len() == 0 {
        Seq::empty()
    } else {
        strung(lines.drop_last()) + lines.last()@
    }
}

/// The complete lines of `bytes`. What follows the last of them may still be
/// written, and waits.
pub fn complete_lines(bytes: &Vec<u8>) -> (lines: Vec<Vec<u8>>)
    ensures
        strung(lines@) == complete(bytes@),
        forall|k: int| 0 <= k < lines@.len() ==> is_complete((#[trigger] lines@[k])@),
{
    let mut lines: Vec<Vec<u8>> = Vec::new();
    let mut line: Vec<u8> = Vec::new();
    let mut i: usize = 0;
    proof {
        assert(bytes@.take(0) =~= Seq::empty());
        assert(strung(lines@) + line@ =~= bytes@.take(0));
    }
    while i < bytes.len()
        invariant
            i <= bytes@.len(),
            strung(lines@) + line@ == bytes@.take(i as int),
            strung(lines@) == complete(bytes@.take(i as int)),
            forall|k: int| 0 <= k < lines@.len() ==> is_complete((#[trigger] lines@[k])@),
            forall|k: int| 0 <= k < line@.len() ==> #[trigger] line@[k] != 10,
        decreases bytes@.len() - i,
    {
        let byte: u8 = bytes[i];
        let ghost longer = bytes@.take(i + 1);
        let ghost head = strung(lines@);
        proof {
            assert(longer.drop_last() =~= bytes@.take(i as int));
            assert(longer.last() == byte);
        }
        line.push(byte);
        proof {
            assert(head + line@ =~= longer);
        }
        if byte == 10 {
            let ghost whole = line@;
            let ghost before = lines@;
            lines.push(line);
            line = Vec::new();
            proof {
                assert(lines@.drop_last() =~= before);
                assert(strung(lines@) =~= longer);
                assert(strung(lines@) + line@ =~= longer);
                assert forall|k: int| 0 <= k < lines@.len() implies is_complete(
                    (#[trigger] lines@[k])@,
                ) by {
                    if k < before.len() {
                        assert(lines@[k] == before[k]);
                    } else {
                        assert(lines@[k]@ == whole);
                    }
                }
            }
        }
        i += 1;
    }
    assert(bytes@.take(bytes@.len() as int) =~= bytes@);
    lines
}

// ---------------------------------------------------------------------------
// Laws
// ---------------------------------------------------------------------------

/// What is taken over of an old file, and what waits, is the file: no byte is
/// read twice and none is passed over.
pub proof fn what_waits_is_the_rest(bytes: Seq<u8>)
    ensures
        complete(bytes).len() <= bytes.len(),
        bytes.take(complete(bytes).len() as int) == complete(bytes),
        forall|i: int| complete(bytes).len() <= i < bytes.len() ==> #[trigger] bytes[i] != 10,
    decreases bytes.len(),
{
    if bytes.len() == 0 || bytes.last() == 10 {
        assert(bytes.take(bytes.len() as int) =~= bytes);
    } else {
        let rest = bytes.drop_last();
        what_waits_is_the_rest(rest);
        let n = complete(bytes).len() as int;
        assert(bytes.take(n) =~= rest.take(n));
        assert forall|i: int| n <= i < bytes.len() implies #[trigger] bytes[i] != 10 by {
            if i < rest.len() {
                assert(rest[i] != 10);
            }
        }
    }
}

/// A call that is not part of a conversation is counted in the sums, and
/// leaves what is said of the conversation as it was.
pub proof fn side_calls_leave_the_conversation(totals: UsageState, usage: Usage)
    requires
        has_room(totals, usage, false),
    ensures
        with_call(totals, usage, false).conversation_tokens == totals.conversation_tokens,
        with_call(totals, usage, false).last_conversation_usage == totals.last_conversation_usage,
        with_call(totals, usage, false).total_tokens == totals.total_tokens
            + usage.effective_total(),
{
}

/// What a call used in all is what the provider says, and the prompt and the
/// answer together where it says nothing. A count that does not fit 63 bits is
/// kept as none.
pub proof fn counts_are_kept_in_63_bits(usage: &Usage, total: u64, n: u64, kept: u64)
    requires
        call_ensures(Usage::effective_total_tokens, (usage,), total),
        call_ensures(keep, (n,), kept),
    ensures
        usage.total_tokens > 0 ==> total == usage.total_tokens,
        usage.total_tokens == 0 ==> total == usage.prompt_tokens + usage.completion_tokens,
        n < 0x8000_0000_0000_0000 ==> kept == n,
        n >= 0x8000_0000_0000_0000 ==> kept == 0,
{
}

/// A call adds one request and each of its counts to the sums, and is the last.
/// It counts for the conversation exactly where it is part of one.
pub proof fn each_count_of_a_call_is_added(
    totals: UsageState,
    usage: Usage,
    is_conversation: bool,
    used: u64,
)
    requires
        has_room(totals, usage, is_conversation),
        call_ensures(Usage::effective_total_tokens, (&usage,), used),
    ensures
        ({
            let after = with_call(totals, usage, is_conversation);
            &&& after.requests == totals.requests + 1
            &&& after.prompt_tokens == totals.prompt_tokens + usage.prompt_tokens
            &&& after.completion_tokens == totals.completion_tokens + usage.completion_tokens
            &&& after.total_tokens == totals.total_tokens + used
            &&& after.cache_read_tokens == totals.cache_read_tokens + usage.cache_read_tokens
            &&& after.cache_write_tokens == totals.cache_write_tokens + usage.cache_write_tokens
            &&& after.reasoning_tokens == totals.reasoning_tokens + usage.reasoning_tokens
            &&& after.last_usage == Some(usage)
            &&& is_conversation ==> after.conversation_tokens == totals.conversation_tokens + used
                && after.last_conversation_usage == Some(usage)
            &&& !is_conversation ==> after.conversation_tokens == totals.conversation_tokens
                && after.last_conversation_usage == totals.last_conversation_usage
        }),
{
}

/// The sums before the first call are all zero.
pub proof fn sums_begin_at_zero(db: &UsageDb, snapshot: UsageSnapshot)
    requires
        call_ensures(UsageDb::snapshot, (db,), snapshot),
    ensures
        db.totals is None ==> snapshot.requests == 0 && snapshot.prompt_tokens == 0
            && snapshot.completion_tokens == 0 && snapshot.total_tokens == 0
            && snapshot.conversation_tokens == 0 && snapshot.cache_read_tokens == 0
            && snapshot.cache_write_tokens == 0 && snapshot.reasoning_tokens == 0
            && snapshot.last_usage is None && snapshot.last_conversation_usage is None,
        db.totals matches Some(totals) ==> {
            &&& snapshot.requests == totals.requests && snapshot.prompt_tokens
                == totals.prompt_tokens && snapshot.completion_tokens == totals.completion_tokens
            &&& snapshot.total_tokens == totals.total_tokens && snapshot.conversation_tokens
                == totals.conversation_tokens
            &&& snapshot.cache_read_tokens == totals.cache_read_tokens
                && snapshot.cache_write_tokens == totals.cache_write_tokens
                && snapshot.reasoning_tokens == totals.reasoning_tokens
            &&& snapshot.last_usage == totals.last_usage
            &&& totals.last_conversation_usage is Some ==> snapshot.last_conversation_usage
                == totals.last_conversation_usage
            &&& totals.last_conversation_usage is None ==> snapshot.last_conversation_usage
                == totals.last_usage
        },
{
}

/// A call is written down under its time and its account, with its source, the
/// agent where none is named, and each of its counts.
pub proof fn a_call_is_written_down_as_it_was(
    record: UsageRecord,
    usage: Usage,
    meta: UsageMeta,
    aux: bool,
    account: Seq<char>,
    ts: i64,
)
    requires
        is_record(record, usage, meta, aux, account, ts),
        usage.prompt_tokens + usage.completion_tokens <= i64::MAX && usage.total_tokens <= i64::MAX,
        usage.cache_read_tokens <= i64::MAX && usage.cache_write_tokens <= i64::MAX,
    ensures
        record.ts == ts && record.aux == aux && record.acct@ == account,
        meta.source@.len() > 0 ==> record.src@ == meta.source@,
        meta.source@.len() == 0 ==> record.src@ == "agent"@,
        meta.provider matches Some(provider) ==> record.provider@ == provider@,
        meta.provider is None ==> record.provider@.len() == 0,
        meta.model matches Some(model) ==> record.model@ == model@,
        meta.model is None ==> record.model@.len() == 0,
        meta.kind matches Some(kind) ==> record.kind@ == kind@,
        meta.kind is None ==> record.kind@.len() == 0,
        record.prompt == usage.prompt_tokens && record.completion == usage.completion_tokens,
        record.cache_read == usage.cache_read_tokens && record.cache_write
            == usage.cache_write_tokens,
        usage.total_tokens > 0 ==> record.total == usage.total_tokens,
        usage.total_tokens == 0 ==> record.total == usage.prompt_tokens + usage.completion_tokens,
{
}

/// Whether a call was asked for: of the account, the source and the model that
/// are named. An empty source or model names none, and a call without a source
/// is the agent's.
pub open spec fn is_wanted(
    record: UsageRecord,
    src: Option<&str>,
    model: Option<&str>,
    account: Option<&str>,
) -> bool {
    &&& account matches Some(account) ==> record.acct@ == account@
    &&& src matches Some(src) ==> src@.len() > 0 ==> (record.src@.len() > 0 && record.src@ == src@
        || record.src@.len() == 0 && src@ == "agent"@)
    &&& model matches Some(model) ==> model@.len() > 0 ==> record.model@ == model@
}

/// Every call that is listed was asked for, the latest comes first, and a call
/// that was asked for and is not listed is no later than any that is. There are
/// as many as are wanted, or as there are.
pub proof fn the_latest_calls_are_listed(
    db: &UsageDb,
    limit: usize,
    src: Option<&str>,
    model: Option<&str>,
    account: Option<&str>,
    calls: Vec<UsageRecord>,
    i: int,
    k: int,
)
    requires
        db.records@.len() <= usize::MAX,
        call_ensures(UsageDb::details, (db, limit, src, model, account), calls),
    ensures
        ({
            let wanted = |record: UsageRecord| is_wanted(record, src, model, account);
            let n = table::count(db.records@, wanted, db.records@.len() as int);
            &&& calls@.len() == if n <= limit {
                n
            } else {
                limit as int
            }
            &&& 0 <= k < calls@.len() ==> is_wanted(calls@[k], src, model, account)
                && db.records@.contains(calls@[k])
            &&& 0 < k < calls@.len() ==> calls@[k].ts <= calls@[k - 1].ts
            &&& 0 <= i < db.records@.len() && is_wanted(db.records@[i], src, model, account)
                && calls@.len() > 0 && db.records@[i].ts > calls@.last().ts ==> calls@.contains(
                db.records@[i],
            )
            &&& 0 <= i < db.records@.len() && is_wanted(db.records@[i], src, model, account) && n
                <= limit ==> calls@.contains(db.records@[i])
        }),
{
    let records = db.records@;
    let wanted = |record: UsageRecord| is_wanted(record, src, model, account);
    let ids = asked(records, src, model, account);
    let keep = |i: usize| is_asked(records[i as int], src, model, account);
    let all = stats::all_ids(records.len());
    assert(ids == all.filter(keep));
    let order = choose|order: Seq<usize>|
        #[trigger] latest_first(records, ids, order) && are_calls(
            records,
            at_most_first(order, limit as int),
            calls@,
        );
    lemma_wanted_count(records, src, model, account, records.len() as int);
    assert(all.take(all.len() as int) =~= all);
    let shown = at_most_first(order, limit as int);
    if 0 <= k < calls@.len() {
        assert(calls@[k] == records[shown[k] as int]);
        assert(shown[k] == order[k]);
        assert(ids.contains(order[k]));
        let at = choose|at: int| 0 <= at < ids.len() && ids[at] == order[k];
        table::lemma_filtered(all, keep, at);
        lemma_asked_in_range(records, src, model, account, order[k]);
        assert(is_wanted(calls@[k], src, model, account) == is_asked(calls@[k], src, model, account));
        if k > 0 {
            assert(calls@[k - 1] == records[shown[k - 1] as int]);
            assert(more_recent(records, order[k - 1], order[k]));
        }
    }
    if 0 <= i < records.len() && is_wanted(records[i], src, model, account) {
        assert(all[i] == i as usize);
        assert(keep(i as usize));
        all.lemma_filter_contains(keep, i);
        assert(ids.contains(i as usize));
        lemma_ids_distinct(records.len());
        table::lemma_filter_distinct(all, keep);
        assert forall|a: int, b: int| 0 <= a < order.len() && 0 <= b < order.len() && a != b implies
            order[a] != order[b] by {
            if a < b {
                assert(more_recent(records, order[a], order[b]));
            } else {
                assert(more_recent(records, order[b], order[a]));
            }
        }
        assert(order.no_duplicates());
        lemma_same_members(order, ids);
        assert(order.contains(i as usize));
        let at = choose|at: int| 0 <= at < order.len() && order[at] == i as usize;
        if at < shown.len() {
            assert(calls@[at] == records[shown[at] as int]);
            assert(shown[at] == order[at]);
        } else if calls@.len() > 0 {
            let last = calls@.len() - 1;
            assert(calls@[last] == records[shown[last] as int]);
            assert(shown[last] == order[last]);
            assert(more_recent(records, order[last], order[at]));
        }
    }
}

proof fn lemma_ids_distinct(n: nat)
    requires
        n <= usize::MAX,
    ensures
        stats::all_ids(n).no_duplicates(),
{
}

/// A list without doubles that holds only what another holds, and as many, holds
/// all of it.
proof fn lemma_same_members(a: Seq<usize>, b: Seq<usize>)
    requires
        a.no_duplicates(),
        b.no_duplicates(),
        a.len() == b.len(),
        forall|i: int| 0 <= i < a.len() ==> b.contains(#[trigger] a[i]),
    ensures
        forall|x: usize| b.contains(x) ==> #[trigger] a.contains(x),
{
    a.unique_seq_to_set();
    b.unique_seq_to_set();
    assert(a.to_set().subset_of(b.to_set())) by {
        assert forall|x: usize| a.to_set().contains(x) implies b.to_set().contains(x) by {
            let i = choose|i: int| 0 <= i < a.len() && a[i] == x;
            assert(b.contains(a[i]));
        }
    }
    vstd::set_lib::lemma_subset_equality(a.to_set(), b.to_set());
    assert forall|x: usize| b.contains(x) implies #[trigger] a.contains(x) by {
        assert(b.to_set().contains(x));
        assert(a.to_set().contains(x));
    }
}

proof fn lemma_wanted_count(
    records: Seq<UsageRecord>,
    src: Option<&str>,
    model: Option<&str>,
    account: Option<&str>,
    n: int,
)
    requires
        0 <= n <= records.len() <= usize::MAX,
    ensures
        ({
            let keep = |i: usize| is_asked(records[i as int], src, model, account);
            let wanted = |record: UsageRecord| is_wanted(record, src, model, account);
            stats::all_ids(records.len()).take(n).filter(keep).len() == table::count(
                records,
                wanted,
                n,
            )
        }),
    decreases n,
{
    let keep = |i: usize| is_asked(records[i as int], src, model, account);
    let wanted = |record: UsageRecord| is_wanted(record, src, model, account);
    let all = stats::all_ids(records.len());
    reveal(Seq::filter);
    if n > 0 {
        lemma_wanted_count(records, src, model, account, n - 1);
        table::lemma_filter_step(all, keep, n - 1);
        assert(all[n - 1] == (n - 1) as usize);
        assert(keep(all[n - 1]) == wanted(records[n - 1]));
    }
}

/// Giving the calls of a provider to another changes the provider of each call
/// of it and nothing else, and says how many there were. Without another name,
/// or without a name, nothing is done.
pub proof fn only_the_provider_is_renamed(
    before: UsageDb,
    after: UsageDb,
    old_name: Seq<char>,
    new_name: Seq<char>,
    count: int,
    i: int,
)
    requires
        are_renamed(before, after, old_name, new_name, count),
        0 <= i < before.records@.len(),
    ensures
        old_name == new_name || old_name.len() == 0 ==> count == 0 && after == before,
        old_name != new_name && old_name.len() > 0 ==> {
            let of = |record: UsageRecord| record.provider@ == old_name;
            let was = before.records@[i];
            let is = after.records@[i];
            &&& count == table::count(before.records@, of, before.records@.len() as int)
            &&& is == (UsageRecord { provider: is.provider, ..was })
            &&& was.provider@ == old_name ==> is.provider@ == new_name
            &&& was.provider@ != old_name ==> is.provider == was.provider
        },
        after.totals == before.totals,
{
    let of = |record: UsageRecord| record.provider@ == old_name;
    table::lemma_count(before.records@, of, before.records@.len() as int);
    if old_name != new_name && old_name.len() > 0 {
        let chosen = choose|chosen: spec_fn(UsageRecord) -> bool|
            count == (#[trigger] before.records@.filter(chosen)).len() && (forall|
                record: UsageRecord,
            | #[trigger]
                chosen(record) == of(record));
        table::lemma_same_filter(before.records@, chosen, of);
    }
}

/// The calls of an account are all of it in their order, and all calls where no
/// account is named.
pub proof fn the_calls_of_an_account_are_given(
    db: &UsageDb,
    account: Option<&str>,
    records: Vec<UsageRecord>,
    i: int,
)
    requires
        call_ensures(UsageDb::records, (db, account), records),
        0 <= i < db.records@.len(),
    ensures
        ({
            let own = |record: UsageRecord|
                account matches Some(account) ==> record.acct@ == account@;
            &&& records@.len() == table::count(db.records@, own, db.records@.len() as int)
            &&& own(db.records@[i]) ==> records@[table::count(db.records@, own, i)]
                == db.records@[i]
        }),
{
    let own = |record: UsageRecord| account matches Some(account) ==> record.acct@ == account@;
    table::lemma_same_filter(
        db.records@,
        |record: UsageRecord| of_account(record, account),
        own,
    );
    table::lemma_count(db.records@, own, db.records@.len() as int);
    if own(db.records@[i]) {
        table::lemma_chosen_place(db.records@, own, i);
    }
}

/// The old file of calls is read from where it was left, not at all where it
/// was read to its end, and from its end where it has become shorter.
pub proof fn an_old_file_is_read_on(db: &UsageDb, file_len: u64, step: HistoryStep)
    requires
        call_ensures(UsageDb::plan_history, (db, file_len), step),
    ensures
        file_len == db.history_offset ==> step is Nothing,
        file_len < db.history_offset ==> step == HistoryStep::Restart(file_len),
        file_len > db.history_offset ==> step == HistoryStep::Read(db.history_offset),
{
}

/// A line more adds the call that it tells of, behind all others, and its own
/// length. One that tells of none adds its length alone.
pub proof fn a_line_more_adds_its_call(lines: Seq<HistoryLine>, line: HistoryLine)
    ensures
        lines_len(lines.push(line)) == lines_len(lines) + line.bytes,
        line.record is None ==> told_calls(lines.push(line)) == told_calls(lines),
        line.record matches Some(record) ==> {
            let after = told_calls(lines.push(line));
            let told = after.last();
            &&& after.len() == told_calls(lines).len() + 1
            &&& after.drop_last() == told_calls(lines)
            &&& told.ts == record.ts && told.src == record.src && told.provider == record.provider
                && told.model == record.model && told.aux == record.aux && told.kind == record.kind
                && told.acct == record.acct
            &&& record.prompt <= i64::MAX ==> told.prompt == record.prompt
            &&& record.completion <= i64::MAX ==> told.completion == record.completion
            &&& record.total <= i64::MAX ==> told.total == record.total
            &&& record.cache_read <= i64::MAX ==> told.cache_read == record.cache_read
            &&& record.cache_write <= i64::MAX ==> told.cache_write == record.cache_write
        },
        lines_len(Seq::empty()) == 0 && told_calls(Seq::empty()).len() == 0,
{
    let all = lines.push(line);
    assert(all.drop_last() =~= lines);
    if let Some(record) = line.record {
        assert(told_calls(all).drop_last() =~= told_calls(lines));
    }
}

/// Without the last call there is none to show, and every sum is what it was.
pub proof fn the_last_call_is_forgotten(
    before: UsageDb,
    after: UsageDb,
    was: UsageSnapshot,
    now: UsageSnapshot,
)
    requires
        is_forgotten(before, after),
        call_ensures(UsageDb::snapshot, (&before,), was),
        call_ensures(UsageDb::snapshot, (&after,), now),
    ensures
        now == (UsageSnapshot { last_usage: None, last_conversation_usage: None, ..was }),
        after.records == before.records && after.history_offset == before.history_offset
            && after.totals_imported == before.totals_imported,
{
}

/// At the beginning of a conversation it has no tokens and there is no last
/// call to show; every other sum is what it was.
pub proof fn a_conversation_begins_at_zero(
    before: UsageDb,
    after: UsageDb,
    was: UsageSnapshot,
    now: UsageSnapshot,
)
    requires
        is_reset(before, after),
        call_ensures(UsageDb::snapshot, (&before,), was),
        call_ensures(UsageDb::snapshot, (&after,), now),
    ensures
        now == (UsageSnapshot {
            conversation_tokens: 0,
            last_usage: None,
            last_conversation_usage: None,
            ..was
        }),
        after.records == before.records && after.history_offset == before.history_offset
            && after.totals_imported == before.totals_imported,
{
}

/// Without its calls a history is read from the beginning, and the sums stay.
pub proof fn sums_outlive_their_calls(before: UsageDb, after: UsageDb)
    requires
        is_emptied(before, after),
    ensures
        after.records@.len() == 0 && after.history_offset == 0,
        after.totals == before.totals && after.totals_imported == before.totals_imported,
{
}

/// The sums of an old file are taken over once, and only where there are none.
pub proof fn old_sums_are_taken_over_once(
    before: UsageDb,
    state: Option<UsageState>,
    after: UsageDb,
    other: Option<UsageState>,
    again: UsageDb,
)
    requires
        are_taken_over(before, state, after),
        are_taken_over(after, other, again),
    ensures
        before.totals is None && !before.totals_imported ==> after.totals == state,
        before.totals is Some || before.totals_imported ==> after.totals == before.totals,
        again.totals == after.totals,
        again.records == before.records && again.history_offset == before.history_offset,
{
}

} // verus!
