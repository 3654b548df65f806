//! What one account keeps: its conversations, and its part of the ledger.

use vstd::prelude::*;

use crate::llm::cache_break::CacheBreak;
use crate::state::conversation_db::cache_breaks::{self, CacheBreakRecord, CacheBreakRow};
use crate::state::conversation_db::rows::{DbError, Stamp};
use crate::state::conversation_db::session_state::{
    self as tables, HistoryRow, LegacyContent, LegacyKind, SessionTables, SessionValueKind, ValueRow,
};
use crate::state::conversation_db::turns;
use crate::state::conversation_db::ConversationDb;
use crate::state::session_state::{self, legacy_file, read_legacy, LegacyFile, REPL_HISTORY_KEEP};
use crate::state::usage::db::{self as ledger, UsageDb};
use crate::state::usage::stats::{self, UsageRange, UsageStats};
use crate::state::usage::{Usage, UsageMeta, UsageRecord, UsageSnapshot};
use crate::table;

verus! {

/// What one account keeps.
#[derive(Debug)]
pub struct StateStore {
    pub conv_db: ConversationDb,
    pub usage: UsageDb,
    /// Whose calls are written down here. Empty is the administrator.
    pub usage_account: String,
}

/// The tables after what an old file held was taken over, where that was still
/// to be done. `raw` is the text of the file, if there is one.
pub open spec fn after_import(
    before: ConversationDb,
    session: String,
    kind: LegacyKind,
    raw: Option<&str>,
    now: String,
    after: ConversationDb,
) -> bool {
    exists|content: Option<LegacyContent>| #[trigger]
        session_state::is_legacy(raw, kind, content) && tables::imported_once(
            before,
            session,
            kind,
            content,
            now,
            after,
        )
}

/// The tables after the value of a kind was set for a session.
pub open spec fn after_set(
    before: ConversationDb,
    session: String,
    kind: SessionValueKind,
    value: String,
    now: String,
    after: ConversationDb,
) -> bool {
    &&& after.state.values@ == tables::with_value(before.state.values@, session, kind, value, now)
    &&& after == (ConversationDb {
        state: SessionTables { values: after.state.values, ..before.state },
        ..before
    })
}

/// The tables after a line was typed at the terminal of a session.
pub open spec fn after_line(
    before: ConversationDb,
    session: String,
    entry: String,
    now: String,
    after: ConversationDb,
) -> bool {
    &&& after.state.history@ == tables::newest(
        before.state.history@.push(
            HistoryRow { session_id: session, entry, created_at: now },
        ),
        session@,
        REPL_HISTORY_KEEP as int,
    )
    &&& after == (ConversationDb {
        state: SessionTables { history: after.state.history, ..before.state },
        ..before
    })
}

impl StateStore {
    pub open spec fn wf(&self) -> bool {
        self.conv_db.wf()
    }

    /// A store without a session, for an account.
    pub fn new(usage_account: &str) -> (store: Self)
        ensures
            store.wf(),
            store.conv_db.sessions@.len() == 0,
            store.conv_db.state.values@.len() == 0,
            store.usage.records@.len() == 0,
            store.usage.totals is None,
            store.usage_account@ == usage_account@,
    {
        StateStore {
            conv_db: ConversationDb::new(),
            usage: UsageDb::new(),
            usage_account: usage_account.to_owned(),
        }
    }

    /// Takes over what an old file held, where that is still to be done.
    fn import_legacy(
        &mut self,
        session_id: &String,
        kind: LegacyKind,
        raw: Option<&str>,
        now: &Stamp,
    )
        requires
            old(self).wf(),
        ensures
            final(self).wf(),
            after_import(
                old(self).conv_db,
                *session_id,
                kind,
                raw,
                now.text,
                final(self).conv_db,
            ),
            *final(self) == (StateStore { conv_db: final(self).conv_db, ..*old(self) }),
    {
        let content = read_legacy(raw, kind);
        let ghost said = content;
        self.conv_db.import_legacy_once(session_id, kind, content, now);
        assert(session_state::is_legacy(raw, kind, said));
    }

    /// The value of a kind for a session. `raw` is the text of the old file
    /// it was kept in, if there is one.
    pub fn session_value(
        &mut self,
        session_id: &String,
        kind: SessionValueKind,
        raw: Option<&str>,
        now: &Stamp,
    ) -> (value: Option<String>)
        requires
            old(self).wf(),
        ensures
            final(self).wf(),
            after_import(
                old(self).conv_db,
                *session_id,
                LegacyKind::Value(kind),
                raw,
                now.text,
                final(self).conv_db,
            ),
            value == tables::value_of(final(self).conv_db.state.values@, session_id@, kind),
            *final(self) == (StateStore { conv_db: final(self).conv_db, ..*old(self) }),
    {
        self.import_legacy(session_id, LegacyKind::Value(kind), raw, now);
        self.conv_db.session_value(session_id.as_str(), kind)
    }

    /// Sets the value of a kind for a session.
    pub fn set_session_value(
        &mut self,
        session_id: &String,
        kind: SessionValueKind,
        value: &str,
        raw: Option<&str>,
        now: &Stamp,
    ) -> (done: Result<(), DbError>)
        requires
            old(self).wf(),
        ensures
            final(self).wf(),
            match done {
                Ok(()) => turns::has_session(old(self).conv_db.sessions@, session_id@)
                    && exists|mid: ConversationDb, text: String| #[trigger]
                    after_import(
                        old(self).conv_db,
                        *session_id,
                        LegacyKind::Value(kind),
                        raw,
                        now.text,
                        mid,
                    ) && text@ == value@ && #[trigger] after_set(
                        mid,
                        *session_id,
                        kind,
                        text,
                        now.text,
                        final(self).conv_db,
                    ),
                Err(e) => e == DbError::UnknownSession && !turns::has_session(
                    old(self).conv_db.sessions@,
                    session_id@,
                ) && final(self).conv_db == old(self).conv_db,
            },
            *final(self) == (StateStore { conv_db: final(self).conv_db, ..*old(self) }),
    {
        self.import_legacy(session_id, LegacyKind::Value(kind), raw, now);
        let ghost mid = self.conv_db;
        let text = value.to_owned();
        let ghost said = text;
        let done = self.conv_db.set_session_value(session_id, kind, text, now);
        assert(done is Ok ==> after_set(
            mid,
            *session_id,
            kind,
            said,
            now.text,
            self.conv_db,
        ));
        done
    }

    /// Reads, changes and writes the value of a kind for a session in one go.
    pub fn update_session_value<F: FnOnce(Option<String>) -> Result<String, DbError>>(
        &mut self,
        session_id: &String,
        kind: SessionValueKind,
        update: F,
        raw: Option<&str>,
        now: &Stamp,
    ) -> (done: Result<(), DbError>)
        requires
            old(self).wf(),
            forall|value: Option<String>| update.requires((value,)),
        ensures
            final(self).wf(),
            exists|mid: ConversationDb, next: Result<String, DbError>|
                {
                    &&& #[trigger] after_import(
                        old(self).conv_db,
                        *session_id,
                        LegacyKind::Value(kind),
                        raw,
                        now.text,
                        mid,
                    )
                    &&& #[trigger] update.ensures(
                        (tables::value_of(mid.state.values@, session_id@, kind),),
                        next,
                    )
                    &&& match (next, done) {
                        (Err(e), _) => done == Err::<(), DbError>(e) && final(self).conv_db == mid,
                        (Ok(value), Ok(())) => turns::has_session(
                            old(self).conv_db.sessions@,
                            session_id@,
                        ) && after_set(
                            mid,
                            *session_id,
                            kind,
                            value,
                            now.text,
                            final(self).conv_db,
                        ),
                        (Ok(_), Err(e)) => e == DbError::UnknownSession && !turns::has_session(
                            old(self).conv_db.sessions@,
                            session_id@,
                        ) && final(self).conv_db == old(self).conv_db,
                    }
                },
            *final(self) == (StateStore { conv_db: final(self).conv_db, ..*old(self) }),
    {
        self.import_legacy(session_id, LegacyKind::Value(kind), raw, now);
        let ghost mid = self.conv_db;
        self.conv_db.update_session_value(session_id, kind, update, now)
    }

    /// Deletes the value of a kind for a session. What is given back is the
    /// old file, which is to be removed: it must not be taken over again.
    pub fn clear_session_value(&mut self, session_id: &String, kind: SessionValueKind, now: &Stamp) -> (file:
        Option<LegacyFile>)
        requires
            old(self).wf(),
        ensures
            final(self).wf(),
            session_state::is_at(
                file,
                session_state::legacy_place(session_id@, LegacyKind::Value(kind)),
            ),
            ({
                let before = old(self).conv_db.state;
                let after = final(self).conv_db.state;
                &&& after.values@ == table::without(
                    before.values@,
                    |row: ValueRow| tables::is_value(row, session_id@, kind),
                )
                &&& after.imports@ == (if turns::has_session(
                    old(self).conv_db.sessions@,
                    session_id@,
                ) {
                    tables::with_import(
                        before.imports@,
                        *session_id,
                        LegacyKind::Value(kind),
                        now.text,
                    )
                } else {
                    before.imports@
                })
                &&& after == (SessionTables {
                    values: after.values,
                    imports: after.imports,
                    ..before
                })
            }),
            final(self).conv_db == (ConversationDb {
                state: final(self).conv_db.state,
                ..old(self).conv_db
            }),
            *final(self) == (StateStore { conv_db: final(self).conv_db, ..*old(self) }),
    {
        self.conv_db.clear_session_value(session_id, kind, now);
        legacy_file(session_id.as_str(), LegacyKind::Value(kind))
    }

    /// The lines typed at the terminal of a session, oldest first.
    pub fn repl_history(&mut self, session_id: &String, raw: Option<&str>, now: &Stamp) -> (entries:
        Vec<String>)
        requires
            old(self).wf(),
        ensures
            final(self).wf(),
            after_import(
                old(self).conv_db,
                *session_id,
                LegacyKind::ReplHistory,
                raw,
                now.text,
                final(self).conv_db,
            ),
            entries@ == tables::history_of(final(self).conv_db.state.history@, session_id@),
            *final(self) == (StateStore { conv_db: final(self).conv_db, ..*old(self) }),
    {
        self.import_legacy(session_id, LegacyKind::ReplHistory, raw, now);
        self.conv_db.repl_history(session_id.as_str())
    }

    /// Adds a line typed at the terminal of a session. The last of them are
    /// kept.
    pub fn append_repl_history(
        &mut self,
        session_id: &String,
        entry: &str,
        raw: Option<&str>,
        now: &Stamp,
    ) -> (done: Result<(), DbError>)
        requires
            old(self).wf(),
        ensures
            final(self).wf(),
            match done {
                Ok(()) => turns::has_session(old(self).conv_db.sessions@, session_id@)
                    && exists|mid: ConversationDb, text: String| #[trigger]
                    after_import(
                        old(self).conv_db,
                        *session_id,
                        LegacyKind::ReplHistory,
                        raw,
                        now.text,
                        mid,
                    ) && text@ == entry@ && #[trigger] after_line(
                        mid,
                        *session_id,
                        text,
                        now.text,
                        final(self).conv_db,
                    ),
                Err(e) => e == DbError::UnknownSession && !turns::has_session(
                    old(self).conv_db.sessions@,
                    session_id@,
                ) && final(self).conv_db == old(self).conv_db,
            },
            *final(self) == (StateStore { conv_db: final(self).conv_db, ..*old(self) }),
    {
        self.import_legacy(session_id, LegacyKind::ReplHistory, raw, now);
        let ghost mid = self.conv_db;
        let text = entry.to_owned();
        let ghost said = text;
        let done = self.conv_db.append_repl_history(session_id, text, REPL_HISTORY_KEEP, now);
        assert(done is Ok ==> after_line(mid, *session_id, said, now.text, self.conv_db));
        done
    }

    // -- broken caches ------------------------------------------------------

    /// Writes a broken cache down.
    pub fn record_cache_break(&mut self, entry: &CacheBreak, now: &Stamp) -> (done: Result<
        (),
        DbError,
    >)
        requires
            old(self).wf(),
        ensures
            final(self).wf(),
            match done {
                Ok(()) => {
                    &&& turns::has_session(old(self).conv_db.sessions@, entry.session_id@)
                    &&& final(self).conv_db.cache_breaks@ == old(self).conv_db.cache_breaks@.push(
                        CacheBreakRow {
                            session_id: entry.session_id,
                            turn_id: entry.turn_id,
                            at: now.text,
                            lost_tokens: ledger::kept(entry.lost_tokens),
                            cause: Some(entry.cause),
                            idle_secs: ledger::kept(entry.idle_secs),
                        },
                    )
                    &&& final(self).conv_db == (ConversationDb {
                        cache_breaks: final(self).conv_db.cache_breaks,
                        ..old(self).conv_db
                    })
                },
                Err(e) => e == DbError::UnknownSession && !turns::has_session(
                    old(self).conv_db.sessions@,
                    entry.session_id@,
                ) && final(self).conv_db == old(self).conv_db,
            },
            *final(self) == (StateStore { conv_db: final(self).conv_db, ..*old(self) }),
    {
        self.conv_db.record_cache_break(entry, now)
    }

    /// How many caches were broken in a session and the subagents under it.
    pub fn cache_break_count(&self, root: &str) -> (count: u64)
        ensures
            count == cache_breaks::breaks_under(self.conv_db, root@).len(),
    {
        self.conv_db.cache_break_count(root)
    }

    /// The last `limit` broken caches in a session and the subagents under it,
    /// the latest first.
    pub fn recent_cache_breaks(&self, root: &str, limit: usize) -> (records: Vec<CacheBreakRecord>)
        ensures
            records@ == cache_breaks::listed_breaks(
                cache_breaks::latest(
                    cache_breaks::breaks_under(self.conv_db, root@),
                    limit as int,
                ),
            ),
    {
        self.conv_db.recent_cache_breaks(root, limit)
    }

    // -- the ledger ---------------------------------------------------------

    /// Starts a conversation: nothing of it was used yet.
    pub fn reset_conversation_usage(&mut self)
        ensures
            ledger::is_reset(old(self).usage, final(self).usage),
            *final(self) == (StateStore { usage: final(self).usage, ..*old(self) }),
    {
        self.usage.reset_conversation();
    }

    /// Adds a call of a conversation to the sums, and writes it down.
    pub fn add_usage(&mut self, usage: &Usage, meta: UsageMeta)
        requires
            ledger::has_room(ledger::totals_or_zero(old(self).usage.totals), *usage, true),
        ensures
            call_added(*old(self), *usage, meta, false, *final(self)),
    {
        self.usage.add(usage, true);
        self.record_usage_history(usage, meta, false);
    }

    /// Adds another call to the sums, and writes it down.
    pub fn add_auxiliary_usage(&mut self, usage: &Usage, meta: UsageMeta)
        requires
            ledger::has_room(ledger::totals_or_zero(old(self).usage.totals), *usage, false),
        ensures
            call_added(*old(self), *usage, meta, true, *final(self)),
    {
        self.usage.add(usage, false);
        self.record_usage_history(usage, meta, true);
    }

    /// Writes a call down for the account, at the current time.
    pub fn record_usage_history(&mut self, usage: &Usage, meta: UsageMeta, aux: bool)
        requires
            usage.valid(),
        ensures
            final(self).usage.records@.len() == old(self).usage.records@.len() + 1,
            final(self).usage.records@.drop_last() == old(self).usage.records@,
            exists|ts: i64|
                #[trigger] ledger::is_record(
                    final(self).usage.records@.last(),
                    *usage,
                    meta,
                    aux,
                    old(self).usage_account@,
                    ts,
                ),
            final(self).usage == (UsageDb {
                records: final(self).usage.records,
                ..old(self).usage
            }),
            *final(self) == (StateStore { usage: final(self).usage, ..*old(self) }),
    {
        self.usage.record(usage, meta, aux, self.usage_account.as_str());
    }

    /// Forgets the calls. The sums stay.
    pub fn clear_usage_history(&mut self)
        ensures
            ledger::is_emptied(old(self).usage, final(self).usage),
            *final(self) == (StateStore { usage: final(self).usage, ..*old(self) }),
    {
        self.usage.clear_history();
    }

    /// Gives the calls of provider `old_name` to `new_name`, and says how many
    /// there were.
    pub fn rename_usage_provider(&mut self, old_name: &str, new_name: &str) -> (count: usize)
        ensures
            final(self).usage.records@.len() == old(self).usage.records@.len(),
            old_name@ == new_name@ || old_name@.len() == 0 ==> count == 0 && *final(self) == *old(
                self,
            ),
            !(old_name@ == new_name@ || old_name@.len() == 0) ==> {
                &&& count == old(self).usage.records@.filter(
                    |record: UsageRecord| record.provider@ == old_name@,
                ).len()
                &&& forall|i: int|
                    0 <= i < old(self).usage.records@.len() ==> ledger::is_renamed(
                        #[trigger] old(self).usage.records@[i],
                        old_name@,
                        new_name@,
                        final(self).usage.records@[i],
                    )
            },
            final(self).usage == (UsageDb {
                records: final(self).usage.records,
                ..old(self).usage
            }),
            *final(self) == (StateStore { usage: final(self).usage, ..*old(self) }),
    {
        self.usage.rename_provider(old_name, new_name)
    }

    /// What all calls add up to for `range`. `priced` says of each whether it
    /// has a price.
    pub fn usage_stats(&self, range: UsageRange, priced: &Vec<bool>) -> (stats: UsageStats)
        requires
            range.valid(),
            priced@.len() == calls_of(*self, None).len(),
            stats::fits(
                stats::added(calls_of(*self, None), priced@, stats::all_ids(priced@.len())),
            ),
        ensures
            sums_calls(*self, range, priced, None, stats),
    {
        self.usage_stats_for_account(range, priced, None)
    }

    /// What the calls of one account, or all calls, add up to for `range`.
    pub fn usage_stats_for_account(
        &self,
        range: UsageRange,
        priced: &Vec<bool>,
        account: Option<&str>,
    ) -> (stats: UsageStats)
        requires
            range.valid(),
            priced@.len() == calls_of(*self, account).len(),
            stats::fits(
                stats::added(calls_of(*self, account), priced@, stats::all_ids(priced@.len())),
            ),
        ensures
            sums_calls(*self, range, priced, account, stats),
    {
        self.usage.stats(range, priced, account)
    }

    /// The last `limit` calls that are asked for, the latest first.
    pub fn usage_details_for_account(
        &self,
        limit: usize,
        src: Option<&str>,
        model: Option<&str>,
        account: Option<&str>,
    ) -> (calls: Vec<UsageRecord>)
        ensures
            exists|order: Seq<usize>|
                {
                    &&& #[trigger] ledger::latest_first(
                        self.usage.records@,
                        ledger::asked(self.usage.records@, src, model, account),
                        order,
                    )
                    &&& ledger::are_calls(
                        self.usage.records@,
                        ledger::at_most_first(order, limit as int),
                        calls@,
                    )
                },
    {
        self.usage.details(limit, src, model, account)
    }

    /// What the sums are.
    pub fn usage_snapshot(&self) -> (snapshot: UsageSnapshot)
        ensures
            snapshot == ledger::totals_or_zero(self.usage.totals).as_snapshot(),
    {
        self.usage.snapshot()
    }

    /// Forgets the last call.
    pub fn clear_last_usage(&mut self)
        ensures
            ledger::is_forgotten(old(self).usage, final(self).usage),
            *final(self) == (StateStore { usage: final(self).usage, ..*old(self) }),
    {
        self.usage.clear_last_usage();
    }
}

/// The store after a call was added to the sums and written down. An auxiliary
/// one is not part of a conversation.
pub open spec fn call_added(
    before: StateStore,
    usage: Usage,
    meta: UsageMeta,
    aux: bool,
    after: StateStore,
) -> bool {
    &&& after.usage.totals == Some(
        ledger::with_call(ledger::totals_or_zero(before.usage.totals), usage, !aux),
    )
    &&& after.usage.records@.len() == before.usage.records@.len() + 1
    &&& after.usage.records@.drop_last() == before.usage.records@
    &&& exists|ts: i64|
        #[trigger] ledger::is_record(
            after.usage.records@.last(),
            usage,
            meta,
            aux,
            before.usage_account@,
            ts,
        )
    &&& after.usage == (UsageDb {
        records: after.usage.records,
        totals: after.usage.totals,
        ..before.usage
    })
    &&& after == (StateStore { usage: after.usage, ..before })
}

/// The calls of one account, or all calls.
pub open spec fn calls_of(store: StateStore, account: Option<&str>) -> Seq<UsageRecord> {
    store.usage.records@.filter(|record: UsageRecord| ledger::of_account(record, account))
}

/// Whether `stats` is what calls add up to, by some clock and some time zone.
pub open spec fn sums_calls(
    store: StateStore,
    range: UsageRange,
    priced: &Vec<bool>,
    account: Option<&str>,
    stats: UsageStats,
) -> bool {
    exists|records: Vec<UsageRecord>, days: Vec<Option<String>>, calendar: stats::Calendar|
        {
            &&& records@ == calls_of(store, account)
            &&& stats::can_be_local(records@, days@, calendar)
            &&& #[trigger] stats::is_stats(
                stats::Book { records: &records, priced, days: &days },
                range,
                account is None,
                calendar,
                stats,
            )
        }
}

// ---------------------------------------------------------------------------
// Laws
// ---------------------------------------------------------------------------

/// What was set is what is read next, whatever old file there is.
pub proof fn what_was_set_is_read(
    before: StateStore,
    mid: ConversationDb,
    after: StateStore,
    session: String,
    kind: SessionValueKind,
    raw: Option<&str>,
    value: String,
    now: String,
    read: ConversationDb,
    later_raw: Option<&str>,
    later: String,
)
    requires
        after_import(before.conv_db, session, LegacyKind::Value(kind), raw, now, mid),
        after_set(mid, session, kind, value, now, after.conv_db),
        after_import(after.conv_db, session, LegacyKind::Value(kind), later_raw, later, read),
        turns::has_session(before.conv_db.sessions@, session@),
    ensures
        tables::value_of(read.state.values@, session@, kind) == Some(value),
        read == after.conv_db,
{
    let legacy = LegacyKind::Value(kind);
    let content = choose|content: Option<LegacyContent>| #[trigger]
        session_state::is_legacy(raw, legacy, content) && tables::imported_once(
            before.conv_db,
            session,
            legacy,
            content,
            now,
            mid,
        );
    tables::a_file_is_taken_over_once(before.conv_db, mid, session, legacy, content, now);
    tables::a_value_round_trips(
        mid.state.values@,
        session,
        kind,
        value,
        now,
        session@,
        kind,
    );
    assert(tables::is_imported(mid.state.imports@, session@, legacy));
}

/// A call is counted in every sum, for the conversation too unless it was made
/// on the side, and written down last, with the account it is of.
pub proof fn a_call_is_counted_and_written_down(
    before: StateStore,
    usage: Usage,
    meta: UsageMeta,
    aux: bool,
    after: StateStore,
    was: UsageSnapshot,
    now: UsageSnapshot,
)
    requires
        call_added(before, usage, meta, aux, after),
        ledger::has_room(ledger::totals_or_zero(before.usage.totals), usage, !aux),
        call_ensures(UsageDb::snapshot, (&before.usage,), was),
        call_ensures(StateStore::usage_snapshot, (&after,), now),
    ensures
        now.requests == was.requests + 1,
        aux ==> now.conversation_tokens == was.conversation_tokens,
        after.usage.records@.len() == before.usage.records@.len() + 1,
        forall|i: int|
            0 <= i < before.usage.records@.len() ==> #[trigger] after.usage.records@[i]
                == before.usage.records@[i],
        after.usage.records@.last().aux == aux,
        after.usage.records@.last().acct@ == before.usage_account@,
        after.conv_db == before.conv_db && after.usage_account == before.usage_account,
{
    assert forall|i: int| 0 <= i < before.usage.records@.len() implies #[trigger]
        after.usage.records@[i] == before.usage.records@[i] by {
        assert(after.usage.records@.drop_last()[i] == before.usage.records@[i]);
    }
}

/// What is shown of the usage of an account is what its calls sum up to.
pub proof fn what_is_shown_is_what_was_summed(
    store: &StateStore,
    shown: UsageSnapshot,
    summed: UsageSnapshot,
)
    requires
        call_ensures(StateStore::usage_snapshot, (store,), shown),
        call_ensures(UsageDb::snapshot, (&store.usage,), summed),
    ensures
        shown == summed,
{
}

} // verus!
