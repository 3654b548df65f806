//! Reading a session page by page.

use vstd::prelude::*;

use crate::state::job_report::{self, job_report_result, JobReportResult, BACKGROUND_JOB_REPORT_TAG};
use crate::state::synthetic::{self, is_synthetic_user_content};
use crate::text::{self, chars_of, same_text, starts_with};

use super::redo::{self, is_taken_into};
use super::rows::{
    copy_entries, copy_opt, DbError, PromptRow, ReplayEntry, ReplayRow, SessionKind, SessionRow,
    TurnRow, TurnStatus, TurnTokens,
};
use crate::table;
use super::{find_turn, ConversationDb};

verus! {

/// A page of turns, oldest first.
#[derive(Debug)]
pub struct TurnPage {
    pub turns: Vec<TurnRow>,
    /// Where older turns are left, the number to ask for those before.
    pub older: Option<i64>,
    /// What the turns before this page used.
    pub tokens_before: TurnTokens,
}

/// A page of what turns showed, oldest first.
#[derive(Debug)]
pub struct ReplayPage {
    pub turns: Vec<TurnReplay>,
    /// Where older turns are left, the number to ask for those before.
    pub older: Option<i64>,
}

/// What a turn showed.
#[derive(Debug)]
pub struct TurnReplay {
    pub seq: i64,
    pub turn_id: String,
    pub display_content: String,
    pub assistant_content: String,
    pub entries: Vec<ReplayEntry>,
    /// Whether the service itself wrote the message.
    pub is_synthetic: bool,
    pub assistant_reasoning: Option<String>,
    pub interrupted: bool,
    pub assistant_provider_id: Option<String>,
    pub assistant_model: Option<String>,
    /// Whether the message is a task that a parent session gave.
    pub from_parent: bool,
    pub job_report: Option<JobReportResult>,
    pub started_at: Option<String>,
    pub finished_at: Option<String>,
}

/// How many of `n` rows come before the last `limit`.
pub open spec fn page_start(n: int, limit: int) -> int {
    if n > limit {
        n - limit
    } else {
        0
    }
}

/// The last `limit` rows.
pub open spec fn last_rows(rows: Seq<TurnRow>, limit: int) -> Seq<TurnRow> {
    rows.skip(page_start(rows.len() as int, limit))
}

/// The number to ask for the rows before the last `limit`, where there are
/// any.
pub open spec fn older_than(rows: Seq<TurnRow>, limit: int) -> Option<i64> {
    if rows.len() > limit {
        Some(rows[page_start(rows.len() as int, limit)].seq)
    } else {
        None
    }
}

/// The highest number there is, where no page was asked for.
pub open spec fn page_bound(before_seq: Option<i64>) -> i64 {
    match before_seq {
        Some(seq) => seq,
        None => i64::MAX,
    }
}

/// The turns of a session that a page of turns is taken from: all but
/// summaries, up to a number.
pub open spec fn listed_turns(turns: Seq<TurnRow>, session: Seq<char>, bound: i64) -> Seq<TurnRow> {
    turns.filter(|turn: TurnRow| is_listed_turn(turn, session, bound))
}

/// Whether a turn is one that a page of turns is taken from.
pub open spec fn is_listed_turn(turn: TurnRow, session: Seq<char>, bound: i64) -> bool {
    turn.session_id@ == session && !turn.is_summary && turn.seq < bound
}

/// The turns of a session that a page of what turns showed is taken from:
/// those that ended and are neither hidden nor summaries, up to a number.
pub open spec fn shown_turns(turns: Seq<TurnRow>, session: Seq<char>, bound: i64) -> Seq<TurnRow> {
    turns.filter(|turn: TurnRow| is_shown_turn(turn, session, bound))
}

/// Whether a turn is one that a page of what turns showed is taken from.
pub open spec fn is_shown_turn(turn: TurnRow, session: Seq<char>, bound: i64) -> bool {
    turn.session_id@ == session && !turn.hidden && !turn.is_summary && turn.status
        != TurnStatus::Running && turn.seq < bound
}

/// The tokens that the first `n` turns used.
pub open spec fn sum_total(rows: Seq<TurnRow>, n: int) -> int
    decreases n,
{
    if n <= 0 {
        0
    } else {
        sum_total(rows, n - 1) + rows[n - 1].token_total
    }
}

/// The tokens that the first `n` turns were asked with.
pub open spec fn sum_prompt(rows: Seq<TurnRow>, n: int) -> int
    decreases n,
{
    if n <= 0 {
        0
    } else {
        sum_prompt(rows, n - 1) + rows[n - 1].token_prompt
    }
}

/// The tokens that the first `n` turns had from a cache.
pub open spec fn sum_cache_read(rows: Seq<TurnRow>, n: int) -> int
    decreases n,
{
    if n <= 0 {
        0
    } else {
        sum_cache_read(rows, n - 1) + rows[n - 1].token_cache_read
    }
}

/// Whether no sum over the first turns, up to `n`, leaves the range of a
/// number.
pub open spec fn sums_fit(rows: Seq<TurnRow>, n: int) -> bool {
    forall|k: int|
        0 <= k <= n ==> {
            &&& i64::MIN <= #[trigger] sum_total(rows, k) <= i64::MAX
            &&& i64::MIN <= sum_prompt(rows, k) <= i64::MAX
            &&& i64::MIN <= sum_cache_read(rows, k) <= i64::MAX
        }
}

/// A sum, 0 where it is negative.
pub open spec fn at_least_zero(sum: int) -> u64 {
    if sum < 0 {
        0
    } else {
        sum as u64
    }
}

/// What the first `n` turns used.
pub open spec fn tokens_of(rows: Seq<TurnRow>, n: int) -> TurnTokens {
    TurnTokens {
        total: at_least_zero(sum_total(rows, n)),
        prompt: at_least_zero(sum_prompt(rows, n)),
        cache_read: at_least_zero(sum_cache_read(rows, n)),
    }
}

/// A turn without what only the model reads.
pub open spec fn is_bare(row: TurnRow, turn: TurnRow) -> bool {
    row == (TurnRow { context_messages: row.context_messages, ..turn }) && row.context_messages@
        == "[]"@
}

/// A number as an unsigned one, 0 where it is negative.
fn non_negative(n: i64) -> (r: u64)
    ensures
        r == at_least_zero(n as int),
{
    if n < 0 {
        0
    } else {
        n as u64
    }
}

impl ConversationDb {
    /// How many turns a page of turns is taken from.
    fn count_listed(&self, session_id: &str, bound: i64) -> (n: usize)
        ensures
            n == listed_turns(self.turns@, session_id@, bound).len(),
    {
        let turns = &self.turns;
        let ghost chosen = |turn: TurnRow| is_listed_turn(turn, session_id@, bound);
        let mut n: usize = 0;
        let mut i: usize = 0;
        proof {
            reveal(Seq::filter);
            assert(turns@.take(0).filter(chosen) =~= Seq::empty());
        }
        while i < turns.len()
            invariant
                i <= turns@.len(),
                *turns == self.turns,
                n <= i,
                chosen == (|turn: TurnRow| is_listed_turn(turn, session_id@, bound)),
                n == turns@.take(i as int).filter(chosen).len(),
            decreases turns@.len() - i,
        {
            proof {
                table::lemma_filter_step(turns@, chosen, i as int);
            }
            if !turns[i].is_summary && turns[i].seq < bound && same_text(
                turns[i].session_id.as_str(),
                session_id,
            ) {
                n += 1;
            }
            i += 1;
        }
        assert(turns@.take(turns@.len() as int) =~= turns@);
        n
    }

    /// A page of the turns of a session: the last `limit` before number
    /// `before_seq`, all but summaries, without what only the model reads.
    pub fn load_turn_page(&self, session_id: &str, before_seq: Option<i64>, limit: usize) -> (page:
        Result<TurnPage, DbError>)
        ensures
            ({
                let rows = listed_turns(self.turns@, session_id@, page_bound(before_seq));
                let start = page_start(rows.len() as int, limit as int);
                match page {
                    Ok(page) => if limit == 0 {
                        page.turns@.len() == 0 && page.older is None && page.tokens_before
                            == tokens_of(rows, 0)
                    } else {
                        &&& sums_fit(rows, start)
                        &&& page.turns@.len() == last_rows(rows, limit as int).len()
                        &&& forall|i: int|
                            0 <= i < page.turns@.len() ==> is_bare(
                                #[trigger] page.turns@[i],
                                last_rows(rows, limit as int)[i],
                            )
                        &&& page.older == older_than(rows, limit as int)
                        &&& page.tokens_before == tokens_of(rows, start)
                    },
                    Err(e) => e == DbError::TokensOverflow && limit > 0 && !sums_fit(rows, start),
                }
            }),
    {
        if limit == 0 {
            return Ok(
                TurnPage { turns: Vec::new(), older: None, tokens_before: TurnTokens::none() },
            );
        }
        let bound: i64 = match before_seq {
            Some(seq) => seq,
            None => i64::MAX,
        };
        let count: usize = self.count_listed(session_id, bound);
        let start: usize = if count > limit {
            count - limit
        } else {
            0
        };
        let turns = &self.turns;
        let ghost chosen = |turn: TurnRow| is_listed_turn(turn, session_id@, bound);
        let ghost rows = listed_turns(turns@, session_id@, bound);
        let mut page: Vec<TurnRow> = Vec::new();
        let mut total: i64 = 0;
        let mut prompt: i64 = 0;
        let mut cache_read: i64 = 0;
        let mut seen: usize = 0;
        let mut i: usize = 0;
        proof {
            reveal(Seq::filter);
            assert(turns@.take(0).filter(chosen) =~= Seq::empty());
        }
        while i < turns.len()
            invariant
                i <= turns@.len(),
                chosen == (|turn: TurnRow| is_listed_turn(turn, session_id@, bound)),
                rows == turns@.filter(chosen),
                *turns == self.turns,
                bound == page_bound(before_seq),
                rows == listed_turns(self.turns@, session_id@, bound),
                count == rows.len(),
                limit > 0,
                start == page_start(rows.len() as int, limit as int),
                seen == turns@.take(i as int).filter(chosen).len(),
                seen <= i,
                seen <= rows.len(),
                turns@.take(i as int).filter(chosen) =~= rows.take(seen as int),
                page@.len() == (if seen > start {
                    seen - start
                } else {
                    0
                }),
                forall|k: int|
                    0 <= k < page@.len() ==> is_bare(#[trigger] page@[k], rows[start + k]),
                ({
                    let done: int = if seen < start {
                        seen as int
                    } else {
                        start as int
                    };
                    &&& sums_fit(rows, done)
                    &&& total == sum_total(rows, done)
                    &&& prompt == sum_prompt(rows, done)
                    &&& cache_read == sum_cache_read(rows, done)
                }),
            decreases turns@.len() - i,
        {
            proof {
                table::lemma_filter_step(turns@, chosen, i as int);
                lemma_prefix_filtered(turns@, chosen, i + 1);
            }
            if !turns[i].is_summary && turns[i].seq < bound && same_text(
                turns[i].session_id.as_str(),
                session_id,
            ) {
                let ghost grown = turns@.take(i + 1).filter(chosen);
                assert(grown == turns@.take(i as int).filter(chosen).push(turns@[i as int]));
                assert(grown[seen as int] == turns@[i as int]);
                assert(rows[seen as int] == turns@[i as int]);
                if seen < start {
                    let sums = (
                        total.checked_add(turns[i].token_total),
                        prompt.checked_add(turns[i].token_prompt),
                        cache_read.checked_add(turns[i].token_cache_read),
                    );
                    proof {
                        let k = seen + 1;
                        assert(sum_total(rows, k) == total
                            + turns@[i as int].token_total);
                        assert(sum_prompt(rows, k) == prompt
                            + turns@[i as int].token_prompt);
                        assert(sum_cache_read(rows, k) == cache_read
                            + turns@[i as int].token_cache_read);
                    }
                    match sums {
                        (Some(a), Some(b), Some(c)) => {
                            total = a;
                            prompt = b;
                            cache_read = c;
                        },
                        _ => {
                            proof {
                                assert(!sums_fit(rows, start as int)) by {
                                    if sums_fit(rows, start as int) {
                                        let k = seen + 1;
                                        assert(i64::MIN <= sum_total(rows, k) <= i64::MAX);
                                    }
                                }
                            }
                            return Err(DbError::TokensOverflow);
                        },
                    }
                } else {
                    let mut row = turns[i].copy();
                    row.context_messages = "[]".to_owned();
                    page.push(row);
                }
                seen += 1;
            }
            i += 1;
        }
        proof {
            assert(turns@.take(turns@.len() as int) =~= turns@);
            assert(rows.take(rows.len() as int) =~= rows);
        }
        let older = if count > limit {
            Some(page[0].seq)
        } else {
            None
        };
        Ok(
            TurnPage {
                turns: page,
                older,
                tokens_before: TurnTokens {
                    total: non_negative(total),
                    prompt: non_negative(prompt),
                    cache_read: non_negative(cache_read),
                },
            },
        )
    }
}

/// What is filtered from a prefix is a prefix of what is filtered.
proof fn lemma_prefix_filtered(turns: Seq<TurnRow>, chosen: spec_fn(TurnRow) -> bool, n: int)
    requires
        0 <= n <= turns.len(),
    ensures
        turns.take(n).filter(chosen).len() <= turns.filter(chosen).len(),
        turns.take(n).filter(chosen) == turns.filter(chosen).take(
            turns.take(n).filter(chosen).len() as int,
        ),
{
    let head = turns.take(n);
    let rest = turns.skip(n);
    assert(turns =~= head + rest);
    Seq::filter_distributes_over_add(head, rest, chosen);
    assert(turns.filter(chosen).take(head.filter(chosen).len() as int) =~= head.filter(chosen));
}

// ---------------------------------------------------------------------------
// What turns showed
// ---------------------------------------------------------------------------

/// The first turn of a session, and -1 where it has none, from row `from` on.
pub open spec fn first_turn(turns: Seq<TurnRow>, session: Seq<char>, from: int) -> int
    decreases turns.len() - from,
{
    if from >= turns.len() {
        -1
    } else if turns[from].session_id@ == session {
        from
    } else {
        first_turn(turns, session, from + 1)
    }
}

/// Whether a session is a subagent's.
pub open spec fn is_subagent(sessions: Seq<SessionRow>, session: Seq<char>) -> bool {
    exists|i: int|
        0 <= i < sessions.len() && (#[trigger] sessions[i]).session_id@ == session
            && sessions[i].kind == SessionKind::Subagent
}

/// Whether a turn is the task that a parent session gave: the first turn of a
/// subagent's session.
pub open spec fn given_by_parent(db: ConversationDb, turn: TurnRow) -> bool {
    let first = first_turn(db.turns@, turn.session_id@, 0);
    is_subagent(db.sessions@, turn.session_id@) && first >= 0 && db.turns@[first].turn_id@
        == turn.turn_id@
}

/// The last section of the report that woke a turn.
pub open spec fn woken_by(turn: TurnRow) -> Option<(job_report::JobReportKind, Seq<char>)> {
    if text::matches_at(turn.user_content@, BACKGROUND_JOB_REPORT_TAG@, 0) {
        job_report::result_of(turn.user_content@)
    } else {
        None
    }
}

/// What is kept of what a turn showed, from row `from` on.
pub open spec fn kept_entries(replays: Seq<ReplayRow>, turn_id: Seq<char>, from: int) -> Seq<
    ReplayEntry,
>
    decreases replays.len() - from,
{
    if from >= replays.len() {
        Seq::empty()
    } else if replays[from].turn_id@ == turn_id {
        replays[from].entries@
    } else {
        kept_entries(replays, turn_id, from + 1)
    }
}

/// Whether what a turn showed ends with its answer cut after 2048 characters.
pub open spec fn is_clipped(entries: Seq<ReplayEntry>, answer: Seq<char>) -> bool {
    entries.len() > 0 && entries.last() is Text && ({
        let shown = entries.last()->Text_0@;
        &&& shown.len() == 2049
        &&& shown[2048] == '…'
        &&& answer.len() > 2048
        &&& shown.take(2048) == answer.take(2048)
    })
}

/// What a turn showed, with an answer that was cut made whole.
pub open spec fn healed(entries: Seq<ReplayEntry>, answer: String) -> Seq<ReplayEntry> {
    if is_clipped(entries, answer@) {
        entries.update(entries.len() - 1, ReplayEntry::Text(answer))
    } else {
        entries
    }
}

/// What a turn that ended showed: what is kept of it, or, where it was
/// interrupted and nothing is, what was gathered from its journal.
pub open spec fn shown_entries(
    db: ConversationDb,
    turn: TurnRow,
    gathered: Seq<ReplayRow>,
) -> Seq<ReplayEntry> {
    let kept = kept_entries(db.replays@, turn.turn_id@, 0);
    healed(
        if kept.len() == 0 && turn.status == TurnStatus::Interrupted {
            kept_entries(gathered, turn.turn_id@, 0)
        } else {
            kept
        },
        turn.assistant_content,
    )
}

/// Whether a report is the one that is wanted.
pub open spec fn is_report(
    report: Option<JobReportResult>,
    wanted: Option<(job_report::JobReportKind, Seq<char>)>,
) -> bool {
    match report {
        Some(r) => wanted == Some((r.kind, r.body@)),
        None => wanted is None,
    }
}

/// What is shown of a turn that ended.
pub open spec fn is_replay_of(
    db: ConversationDb,
    turn: TurnRow,
    gathered: Seq<ReplayRow>,
    replay: TurnReplay,
) -> bool {
    &&& replay.seq == turn.seq
    &&& replay.turn_id == turn.turn_id
    &&& replay.display_content == turn.display_content
    &&& replay.assistant_content == turn.assistant_content
    &&& replay.entries@ == shown_entries(db, turn, gathered)
    &&& replay.is_synthetic == synthetic::is_synthetic(turn.user_content@)
    &&& replay.assistant_reasoning == turn.assistant_reasoning
    &&& replay.interrupted == (turn.status == TurnStatus::Interrupted)
    &&& replay.assistant_provider_id == turn.assistant_provider_id
    &&& replay.assistant_model == turn.assistant_model
    &&& replay.from_parent == given_by_parent(db, turn)
    &&& is_report(replay.job_report, woken_by(turn))
    &&& replay.started_at == Some(turn.user_timestamp)
    &&& replay.finished_at == turn.assistant_timestamp
}

/// What is kept of what a turn showed.
fn find_entries(replays: &Vec<ReplayRow>, turn_id: &str) -> (entries: Vec<ReplayEntry>)
    ensures
        entries@ == kept_entries(replays@, turn_id@, 0),
{
    let mut i: usize = 0;
    while i < replays.len()
        invariant
            i <= replays@.len(),
            kept_entries(replays@, turn_id@, 0) == kept_entries(replays@, turn_id@, i as int),
        decreases replays@.len() - i,
    {
        if same_text(replays[i].turn_id.as_str(), turn_id) {
            return copy_entries(&replays[i].entries);
        }
        i += 1;
    }
    Vec::new()
}

/// Makes an answer whole that was cut after 2048 characters.
pub fn heal_clipped_reply(entries: &mut Vec<ReplayEntry>, answer: &String)
    ensures
        final(entries)@ == healed(old(entries)@, *answer),
{
    if entries.len() == 0 {
        return ;
    }
    let last: usize = entries.len() - 1;
    let clipped = match &entries[last] {
        ReplayEntry::Text(shown) => is_cut_of(shown.as_str(), answer.as_str()),
        ReplayEntry::Other(_) => false,
    };
    if clipped {
        let ghost before = entries@;
        entries.set(last, ReplayEntry::Text(answer.clone()));
    }
}

/// Whether `shown` is `answer` cut after 2048 characters.
fn is_cut_of(shown: &str, answer: &str) -> (r: bool)
    ensures
        r == (shown@.len() == 2049 && shown@[2048] == '…' && answer@.len() > 2048 && shown@.take(
            2048,
        ) == answer@.take(2048)),
{
    let a = chars_of(shown);
    let b = chars_of(answer);
    if a.len() != 2049 || a[2048] != '…' || b.len() <= 2048 {
        return false;
    }
    let mut i: usize = 0;
    while i < 2048
        invariant
            i <= 2048,
            a@ == shown@,
            b@ == answer@,
            a@.len() == 2049,
            b@.len() > 2048,
            forall|k: int| 0 <= k < i ==> a@[k] == b@[k],
        decreases 2048 - i,
    {
        if a[i] != b[i] {
            assert(a@.take(2048)[i as int] != b@.take(2048)[i as int]);
            return false;
        }
        i += 1;
    }
    assert(a@.take(2048) =~= b@.take(2048));
    true
}

impl ConversationDb {
    /// Whether a turn is the task that a parent session gave.
    fn is_given_by_parent(&self, turn: &TurnRow) -> (r: bool)
        ensures
            r == given_by_parent(*self, *turn),
    {
        let mut subagent = false;
        let mut i: usize = 0;
        while i < self.sessions.len()
            invariant
                i <= self.sessions@.len(),
                subagent == exists|k: int|
                    0 <= k < i && (#[trigger] self.sessions@[k]).session_id@ == turn.session_id@
                        && self.sessions@[k].kind == SessionKind::Subagent,
            decreases self.sessions@.len() - i,
        {
            let here = self.sessions[i].kind == SessionKind::Subagent && same_text(
                self.sessions[i].session_id.as_str(),
                turn.session_id.as_str(),
            );
            proof {
                if !here && exists|k: int|
                    0 <= k < i + 1 && (#[trigger] self.sessions@[k]).session_id@
                        == turn.session_id@ && self.sessions@[k].kind == SessionKind::Subagent {
                    let k = choose|k: int|
                        0 <= k < i + 1 && (#[trigger] self.sessions@[k]).session_id@
                            == turn.session_id@ && self.sessions@[k].kind
                            == SessionKind::Subagent;
                    assert(k < i);
                }
            }
            subagent = subagent || here;
            i += 1;
        }
        if !subagent {
            return false;
        }
        let turns = &self.turns;
        let mut j: usize = 0;
        while j < turns.len()
            invariant
                j <= turns@.len(),
                *turns == self.turns,
                is_subagent(self.sessions@, turn.session_id@),
                first_turn(turns@, turn.session_id@, 0) == first_turn(
                    turns@,
                    turn.session_id@,
                    j as int,
                ),
            decreases turns@.len() - j,
        {
            if same_text(turns[j].session_id.as_str(), turn.session_id.as_str()) {
                return same_text(turns[j].turn_id.as_str(), turn.turn_id.as_str());
            }
            j += 1;
        }
        false
    }

    /// What is shown of a turn that ended.
    fn replay_turn(&self, turn: &TurnRow, gathered: &Vec<ReplayRow>) -> (replay: TurnReplay)
        ensures
            is_replay_of(*self, *turn, gathered@, replay),
    {
        let interrupted = turn.status == TurnStatus::Interrupted;
        let mut entries = find_entries(&self.replays, turn.turn_id.as_str());
        if entries.len() == 0 && interrupted {
            entries = find_entries(gathered, turn.turn_id.as_str());
        }
        heal_clipped_reply(&mut entries, &turn.assistant_content);
        TurnReplay {
            seq: turn.seq,
            turn_id: turn.turn_id.clone(),
            display_content: turn.display_content.clone(),
            assistant_content: turn.assistant_content.clone(),
            entries,
            is_synthetic: is_synthetic_user_content(turn.user_content.as_str()),
            assistant_reasoning: copy_opt(&turn.assistant_reasoning),
            interrupted,
            assistant_provider_id: copy_opt(&turn.assistant_provider_id),
            assistant_model: copy_opt(&turn.assistant_model),
            from_parent: self.is_given_by_parent(turn),
            job_report: woken_report(turn),
            started_at: Some(turn.user_timestamp.clone()),
            finished_at: copy_opt(&turn.assistant_timestamp),
        }
    }

    /// How many turns a page of what turns showed is taken from.
    fn count_shown(&self, session_id: &str, bound: i64) -> (n: usize)
        ensures
            n == shown_turns(self.turns@, session_id@, bound).len(),
    {
        let turns = &self.turns;
        let ghost chosen = |turn: TurnRow| is_shown_turn(turn, session_id@, bound);
        let mut n: usize = 0;
        let mut i: usize = 0;
        proof {
            reveal(Seq::filter);
            assert(turns@.take(0).filter(chosen) =~= Seq::empty());
        }
        while i < turns.len()
            invariant
                i <= turns@.len(),
                *turns == self.turns,
                n <= i,
                chosen == (|turn: TurnRow| is_shown_turn(turn, session_id@, bound)),
                n == turns@.take(i as int).filter(chosen).len(),
            decreases turns@.len() - i,
        {
            proof {
                table::lemma_filter_step(turns@, chosen, i as int);
            }
            if is_shown(&turns[i], session_id, bound) {
                n += 1;
            }
            i += 1;
        }
        assert(turns@.take(turns@.len() as int) =~= turns@);
        n
    }

    /// A page of what the turns of a session showed: the last `limit` that
    /// ended before number `before_seq`. `gathered` is what journals tell of
    /// turns that were interrupted and of which nothing is kept.
    pub fn session_replay_page(
        &self,
        session_id: &str,
        before_seq: Option<i64>,
        limit: usize,
        gathered: &Vec<ReplayRow>,
    ) -> (page: ReplayPage)
        ensures
            ({
                let rows = shown_turns(self.turns@, session_id@, page_bound(before_seq));
                if limit == 0 {
                    page.turns@.len() == 0 && page.older is None
                } else {
                    &&& page.turns@.len() == last_rows(rows, limit as int).len()
                    &&& forall|i: int|
                        0 <= i < page.turns@.len() ==> is_replay_of(
                            *self,
                            last_rows(rows, limit as int)[i],
                            gathered@,
                            #[trigger] page.turns@[i],
                        )
                    &&& page.older == older_than(rows, limit as int)
                }
            }),
    {
        if limit == 0 {
            return ReplayPage { turns: Vec::new(), older: None };
        }
        let bound: i64 = match before_seq {
            Some(seq) => seq,
            None => i64::MAX,
        };
        let count: usize = self.count_shown(session_id, bound);
        let start: usize = if count > limit {
            count - limit
        } else {
            0
        };
        let turns = &self.turns;
        let ghost chosen = |turn: TurnRow| is_shown_turn(turn, session_id@, bound);
        let ghost rows = shown_turns(turns@, session_id@, bound);
        let mut page: Vec<TurnReplay> = Vec::new();
        let mut seen: usize = 0;
        let mut i: usize = 0;
        proof {
            reveal(Seq::filter);
            assert(turns@.take(0).filter(chosen) =~= Seq::empty());
        }
        while i < turns.len()
            invariant
                i <= turns@.len(),
                chosen == (|turn: TurnRow| is_shown_turn(turn, session_id@, bound)),
                rows == turns@.filter(chosen),
                count == rows.len(),
                start == page_start(rows.len() as int, limit as int),
                seen == turns@.take(i as int).filter(chosen).len(),
                seen <= i,
                seen <= rows.len(),
                turns@.take(i as int).filter(chosen) =~= rows.take(seen as int),
                page@.len() == (if seen > start {
                    seen - start
                } else {
                    0
                }),
                forall|k: int|
                    0 <= k < page@.len() ==> is_replay_of(
                        *self,
                        rows[start + k],
                        gathered@,
                        #[trigger] page@[k],
                    ),
            decreases turns@.len() - i,
        {
            proof {
                table::lemma_filter_step(turns@, chosen, i as int);
                lemma_prefix_filtered(turns@, chosen, i + 1);
            }
            if is_shown(&turns[i], session_id, bound) {
                proof {
                    let grown = turns@.take(i + 1).filter(chosen);
                    assert(grown == turns@.take(i as int).filter(chosen).push(turns@[i as int]));
                    assert(grown[seen as int] == turns@[i as int]);
                    assert(rows[seen as int] == turns@[i as int]);
                }
                if seen >= start {
                    page.push(self.replay_turn(&turns[i], gathered));
                }
                seen += 1;
            }
            i += 1;
        }
        proof {
            assert(turns@.take(turns@.len() as int) =~= turns@);
            assert(rows.take(rows.len() as int) =~= rows);
        }
        let older = if count > limit {
            assert(is_replay_of(*self, rows[start as int], gathered@, page@[0]));
            Some(page[0].seq)
        } else {
            None
        };
        ReplayPage { turns: page, older }
    }

    /// What the last `limit` turns of a session showed.
    pub fn session_replay(&self, session_id: &str, limit: usize, gathered: &Vec<ReplayRow>) -> (
        turns: Vec<TurnReplay>)
        ensures
            ({
                let rows = last_rows(
                    shown_turns(self.turns@, session_id@, i64::MAX),
                    limit as int,
                );
                &&& turns@.len() == (if limit == 0 {
                    0
                } else {
                    rows.len()
                })
                &&& forall|i: int|
                    0 <= i < turns@.len() ==> is_replay_of(
                        *self,
                        rows[i],
                        gathered@,
                        #[trigger] turns@[i],
                    )
            }),
    {
        self.session_replay_page(session_id, None, limit, gathered).turns
    }

    /// What a turn that is running has shown so far, `gathered` from its
    /// journal.
    pub fn running_turn_replay(&self, turn_id: &str, gathered: Vec<ReplayEntry>) -> (replay: Option<
        TurnReplay,
    >)
        requires
            self.wf(),
        ensures
            replay is Some <==> self.turn_at(turn_id@) >= 0,
            replay is Some ==> ({
                let turn = self.turns@[self.turn_at(turn_id@)];
                let r = replay->Some_0;
                &&& r.seq == turn.seq
                &&& r.turn_id == turn.turn_id
                &&& r.display_content == turn.display_content
                &&& r.assistant_content@.len() == 0
                &&& r.entries == gathered
                &&& r.is_synthetic == synthetic::is_synthetic(turn.user_content@)
                &&& r.assistant_reasoning is None
                &&& !r.interrupted
                &&& r.assistant_provider_id == turn.assistant_provider_id
                &&& r.assistant_model == turn.assistant_model
                &&& r.from_parent == given_by_parent(*self, turn)
                &&& is_report(r.job_report, woken_by(turn))
                &&& r.started_at == Some(turn.user_timestamp)
                &&& r.finished_at is None
            }),
    {
        let at: usize = match find_turn(&self.turns, turn_id) {
            Some(at) => at,
            None => return None,
        };
        let turn = &self.turns[at];
        Some(
            TurnReplay {
                seq: turn.seq,
                turn_id: turn.turn_id.clone(),
                display_content: turn.display_content.clone(),
                assistant_content: String::new(),
                entries: gathered,
                is_synthetic: is_synthetic_user_content(turn.user_content.as_str()),
                assistant_reasoning: None,
                interrupted: false,
                assistant_provider_id: copy_opt(&turn.assistant_provider_id),
                assistant_model: copy_opt(&turn.assistant_model),
                from_parent: self.is_given_by_parent(turn),
                job_report: woken_report(turn),
                started_at: Some(turn.user_timestamp.clone()),
                finished_at: None,
            },
        )
    }

    /// Whether a turn is the task that a parent session gave.
    pub fn turn_from_parent(&self, turn_id: &str) -> (r: bool)
        requires
            self.wf(),
        ensures
            r == (self.turn_at(turn_id@) >= 0 && given_by_parent(
                *self,
                self.turns@[self.turn_at(turn_id@)],
            )),
    {
        match find_turn(&self.turns, turn_id) {
            Some(at) => self.is_given_by_parent(&self.turns[at]),
            None => false,
        }
    }

    /// The last section of the report that woke a turn.
    pub fn turn_job_report(&self, turn_id: &str) -> (report: Option<JobReportResult>)
        requires
            self.wf(),
        ensures
            is_report(
                report,
                if self.turn_at(turn_id@) >= 0 {
                    woken_by(self.turns@[self.turn_at(turn_id@)])
                } else {
                    None
                },
            ),
    {
        match find_turn(&self.turns, turn_id) {
            Some(at) => woken_report(&self.turns[at]),
            None => None,
        }
    }
}

/// The last section of the report that woke a turn.
fn woken_report(turn: &TurnRow) -> (report: Option<JobReportResult>)
    ensures
        is_report(report, woken_by(*turn)),
{
    if starts_with(turn.user_content.as_str(), BACKGROUND_JOB_REPORT_TAG) {
        job_report_result(turn.user_content.as_str())
    } else {
        None
    }
}

/// Whether a turn is one that a page of what turns showed is taken from.
fn is_shown(turn: &TurnRow, session_id: &str, bound: i64) -> (r: bool)
    ensures
        r == is_shown_turn(*turn, session_id@, bound),
{
    !turn.hidden && !turn.is_summary && turn.status != TurnStatus::Running && turn.seq < bound
        && same_text(turn.session_id.as_str(), session_id)
}

// ---------------------------------------------------------------------------
// What the user said
// ---------------------------------------------------------------------------

/// The wording in which a message was taken into a turn.
pub open spec fn wording_of(prompt: PromptRow) -> String {
    match prompt.context_content {
        Some(content) => content,
        None => prompt.content,
    }
}

/// The messages that a turn took in, among the first `n`.
pub open spec fn inputs_of(prompts: Seq<PromptRow>, turn_id: Seq<char>, n: int) -> Seq<String>
    decreases n,
{
    if n <= 0 {
        Seq::empty()
    } else if redo::taken_into(prompts[n - 1], turn_id) {
        inputs_of(prompts, turn_id, n - 1).push(wording_of(prompts[n - 1]))
    } else {
        inputs_of(prompts, turn_id, n - 1)
    }
}

/// What the user said in the first `n` turns, each time the message that began
/// the turn and those that it took in.
pub open spec fn said_by_user(db: ConversationDb, session: Seq<char>, n: int) -> Seq<String>
    decreases n,
{
    if n <= 0 {
        Seq::empty()
    } else {
        let before = said_by_user(db, session, n - 1);
        let turn = db.turns@[n - 1];
        if turn.session_id@ == session && !turn.is_summary {
            before.push(turn.user_content) + inputs_of(
                db.prompts@,
                turn.turn_id@,
                db.prompts@.len() as int,
            )
        } else {
            before
        }
    }
}

/// The first turn of a session that is no summary, and -1 where there is none,
/// from row `from` on.
pub open spec fn first_said(turns: Seq<TurnRow>, session: Seq<char>, from: int) -> int
    decreases turns.len() - from,
{
    if from >= turns.len() {
        -1
    } else if turns[from].session_id@ == session && !turns[from].is_summary {
        from
    } else {
        first_said(turns, session, from + 1)
    }
}

impl ConversationDb {
    /// What the user said first in a session.
    pub fn first_user_content(&self, session_id: &str) -> (content: Option<String>)
        ensures
            ({
                let at = first_said(self.turns@, session_id@, 0);
                content == (if at >= 0 {
                    Some(self.turns@[at].user_content)
                } else {
                    None
                })
            }),
    {
        let turns = &self.turns;
        let mut i: usize = 0;
        while i < turns.len()
            invariant
                i <= turns@.len(),
                *turns == self.turns,
                first_said(turns@, session_id@, 0) == first_said(turns@, session_id@, i as int),
            decreases turns@.len() - i,
        {
            if !turns[i].is_summary && same_text(turns[i].session_id.as_str(), session_id) {
                return Some(turns[i].user_content.clone());
            }
            i += 1;
        }
        None
    }

    /// What the user said in a session, in order.
    pub fn user_inputs(&self, session_id: &str) -> (inputs: Vec<String>)
        ensures
            inputs@ == said_by_user(*self, session_id@, self.turns@.len() as int),
    {
        let turns = &self.turns;
        let prompts = &self.prompts;
        let mut inputs: Vec<String> = Vec::new();
        let mut i: usize = 0;
        while i < turns.len()
            invariant
                i <= turns@.len(),
                *turns == self.turns,
                *prompts == self.prompts,
                inputs@ == said_by_user(*self, session_id@, i as int),
            decreases turns@.len() - i,
        {
            if !turns[i].is_summary && same_text(turns[i].session_id.as_str(), session_id) {
                inputs.push(turns[i].user_content.clone());
                let ghost start = inputs@;
                let mut k: usize = 0;
                while k < prompts.len()
                    invariant
                        k <= prompts@.len(),
                        i < turns@.len(),
                        inputs@ =~= start + inputs_of(
                            prompts@,
                            turns@[i as int].turn_id@,
                            k as int,
                        ),
                    decreases prompts@.len() - k,
                {
                    if is_taken_into(&prompts[k], turns[i].turn_id.as_str()) {
                        let content = match &prompts[k].context_content {
                            Some(content) => content.clone(),
                            None => prompts[k].content.clone(),
                        };
                        inputs.push(content);
                    }
                    k += 1;
                }
            }
            i += 1;
        }
        inputs
    }
}

// ---------------------------------------------------------------------------
// Laws
// ---------------------------------------------------------------------------

/// Pages follow each other without a gap and without an overlap: what is left
/// before a page is what the next page is taken from.
pub proof fn turn_pages_follow_each_other(
    turns: Seq<TurnRow>,
    session: Seq<char>,
    bound: i64,
    limit: int,
)
    requires
        super::turns_ordered(turns),
        limit > 0,
        listed_turns(turns, session, bound).len() > limit,
    ensures
        ({
            let rows = listed_turns(turns, session, bound);
            let older = older_than(rows, limit);
            &&& older is Some
            &&& listed_turns(turns, session, older->Some_0) + last_rows(rows, limit) == rows
        }),
{
    let rows = listed_turns(turns, session, bound);
    let start = page_start(rows.len() as int, limit);
    let cursor = rows[start].seq;
    lemma_cut(
        turns,
        session,
        |turn: TurnRow| is_listed_turn(turn, session, bound),
        |turn: TurnRow| is_listed_turn(turn, session, cursor),
        start,
    );
    assert(rows.take(start) + rows.skip(start) =~= rows);
}

/// Pages of what turns showed follow each other in the same way.
pub proof fn replay_pages_follow_each_other(
    turns: Seq<TurnRow>,
    session: Seq<char>,
    bound: i64,
    limit: int,
)
    requires
        super::turns_ordered(turns),
        limit > 0,
        shown_turns(turns, session, bound).len() > limit,
    ensures
        ({
            let rows = shown_turns(turns, session, bound);
            let older = older_than(rows, limit);
            &&& older is Some
            &&& shown_turns(turns, session, older->Some_0) + last_rows(rows, limit) == rows
        }),
{
    let rows = shown_turns(turns, session, bound);
    let start = page_start(rows.len() as int, limit);
    let cursor = rows[start].seq;
    lemma_cut(
        turns,
        session,
        |turn: TurnRow| is_shown_turn(turn, session, bound),
        |turn: TurnRow| is_shown_turn(turn, session, cursor),
        start,
    );
    assert(rows.take(start) + rows.skip(start) =~= rows);
}

/// Rows of one session that are chosen and have a number below that of row
/// `start` are the rows before it.
proof fn lemma_cut(
    turns: Seq<TurnRow>,
    session: Seq<char>,
    chosen: spec_fn(TurnRow) -> bool,
    lower: spec_fn(TurnRow) -> bool,
    start: int,
)
    requires
        super::turns_ordered(turns),
        forall|turn: TurnRow| #[trigger] chosen(turn) ==> turn.session_id@ == session,
        0 <= start < turns.filter(chosen).len(),
        forall|turn: TurnRow| #[trigger]
            lower(turn) == (chosen(turn) && turn.seq < turns.filter(chosen)[start].seq),
    ensures
        turns.filter(lower) == turns.filter(chosen).take(start),
{
    let rows = turns.filter(chosen);
    let cursor = rows[start].seq;
    lemma_filter_filter(turns, chosen, lower);
    assert forall|i: int, j: int| 0 <= i < j < rows.len() implies rows[i].seq < rows[j].seq by {
        lemma_filtered_ordered(turns, chosen, session, i, j);
    }
    lemma_filter_prefix(rows, lower, start, chosen, cursor);
}

/// Filtering by less after more is filtering by less.
proof fn lemma_filter_filter(
    turns: Seq<TurnRow>,
    more: spec_fn(TurnRow) -> bool,
    less: spec_fn(TurnRow) -> bool,
)
    requires
        forall|turn: TurnRow| #[trigger] less(turn) ==> more(turn),
    ensures
        turns.filter(more).filter(less) == turns.filter(less),
    decreases turns.len(),
{
    reveal(Seq::filter);
    if turns.len() > 0 {
        let head = turns.drop_last();
        lemma_filter_filter(head, more, less);
        let last = turns.last();
        if more(last) {
            let grown = head.filter(more).push(last);
            assert(turns.filter(more) == grown);
            assert(grown.drop_last() =~= head.filter(more));
            assert(grown.last() == last);
        }
    }
}

/// What is filtered of one session stands in the order of its numbers.
proof fn lemma_filtered_ordered(
    turns: Seq<TurnRow>,
    chosen: spec_fn(TurnRow) -> bool,
    session: Seq<char>,
    i: int,
    j: int,
)
    requires
        super::turns_ordered(turns),
        forall|turn: TurnRow| #[trigger] chosen(turn) ==> turn.session_id@ == session,
        0 <= i < j < turns.filter(chosen).len(),
    ensures
        turns.filter(chosen)[i].seq < turns.filter(chosen)[j].seq,
{
    let dropped = |turn: TurnRow| !chosen(turn);
    let rows = turns.filter(chosen);
    assert(rows == table::without(turns, dropped)) by {
        super::running::lemma_same_filter(turns, chosen, |turn: TurnRow| !dropped(turn));
    }
    let place = table::lemma_without_embeds(turns, dropped);
    table::lemma_filtered(turns, chosen, i);
    table::lemma_filtered(turns, chosen, j);
    assert(place(i) < place(j));
    assert(turns[place(i)].session_id@ == turns[place(j)].session_id@);
}

/// Of rows in order, those with a number below that of row `start` are the
/// first `start`.
proof fn lemma_filter_prefix(
    rows: Seq<TurnRow>,
    lower: spec_fn(TurnRow) -> bool,
    start: int,
    chosen: spec_fn(TurnRow) -> bool,
    cursor: i64,
)
    requires
        0 <= start < rows.len(),
        cursor == rows[start].seq,
        forall|i: int, j: int| 0 <= i < j < rows.len() ==> rows[i].seq < rows[j].seq,
        forall|i: int| 0 <= i < rows.len() ==> (#[trigger] lower(rows[i]) == (rows[i].seq < cursor)),
    ensures
        rows.filter(lower) == rows.take(start),
{
    let head = rows.take(start);
    let rest = rows.skip(start);
    assert(rows =~= head + rest);
    Seq::filter_distributes_over_add(head, rest, lower);
    assert forall|i: int| 0 <= i < head.len() implies lower(#[trigger] head[i]) by {
        assert(lower(rows[i]) == (rows[i].seq < cursor));
    }
    lemma_filter_all(head, lower);
    assert forall|i: int| 0 <= i < rest.len() implies !lower(#[trigger] rest[i]) by {
        assert(lower(rows[start + i]) == (rows[start + i].seq < cursor));
        assert(rest[i] == rows[start + i]);
    }
    lemma_filter_none(rest, lower);
    assert(head + Seq::<TurnRow>::empty() =~= head);
}

proof fn lemma_filter_all(rows: Seq<TurnRow>, keep: spec_fn(TurnRow) -> bool)
    requires
        forall|i: int| 0 <= i < rows.len() ==> keep(#[trigger] rows[i]),
    ensures
        rows.filter(keep) == rows,
    decreases rows.len(),
{
    reveal(Seq::filter);
    if rows.len() > 0 {
        let head = rows.drop_last();
        assert forall|i: int| 0 <= i < head.len() implies keep(#[trigger] head[i]) by {
            assert(head[i] == rows[i]);
        }
        lemma_filter_all(head, keep);
        assert(keep(rows[rows.len() - 1]));
        assert(head.push(rows.last()) =~= rows);
    }
}

proof fn lemma_filter_none(rows: Seq<TurnRow>, keep: spec_fn(TurnRow) -> bool)
    requires
        forall|i: int| 0 <= i < rows.len() ==> !keep(#[trigger] rows[i]),
    ensures
        rows.filter(keep) == Seq::<TurnRow>::empty(),
    decreases rows.len(),
{
    reveal(Seq::filter);
    if rows.len() > 0 {
        let head = rows.drop_last();
        assert forall|i: int| 0 <= i < head.len() implies !keep(#[trigger] head[i]) by {
            assert(head[i] == rows[i]);
        }
        lemma_filter_none(head, keep);
        assert(!keep(rows[rows.len() - 1]));
    }
}

/// The turns of a session that are no summaries and have a number below a
/// bound.
pub open spec fn before_bound(session: Seq<char>, before: Option<i64>) -> spec_fn(TurnRow) -> bool {
    |turn: TurnRow|
        turn.session_id@ == session && !turn.is_summary && turn.seq < match before {
            Some(seq) => seq,
            None => i64::MAX,
        }
}

proof fn lemma_listed(turns: Seq<TurnRow>, session: Seq<char>, before: Option<i64>)
    ensures
        listed_turns(turns, session, page_bound(before)) == turns.filter(
            before_bound(session, before),
        ),
{
    table::lemma_same_filter(
        turns,
        |turn: TurnRow| is_listed_turn(turn, session, page_bound(before)),
        before_bound(session, before),
    );
}

/// Every turn of a session that is no summary and has a number below the bound
/// is among those that a page is taken from, whether it runs, was interrupted
/// or is hidden. The page holds the last of them, as many as are wanted or as
/// there are, in their order: turn `i` stands on it unless as many come behind
/// it as are wanted. It is told without what only the model reads.
pub proof fn every_turn_is_listed(
    db: &ConversationDb,
    session: &str,
    before: Option<i64>,
    limit: usize,
    page: TurnPage,
    i: int,
)
    requires
        call_ensures(ConversationDb::load_turn_page, (db, session, before, limit), Ok(page)),
        limit > 0,
        0 <= i < db.turns@.len(),
        db.turns@[i].session_id@ == session@,
        !db.turns@[i].is_summary,
        before matches Some(bound) ==> db.turns@[i].seq < bound,
        before is None ==> db.turns@[i].seq < i64::MAX,
    ensures
        ({
            let chosen = before_bound(session@, before);
            let all = table::count(db.turns@, chosen, db.turns@.len() as int);
            let place = table::count(db.turns@, chosen, i) - (all - page.turns@.len());
            &&& page.turns@.len() == if all <= limit {
                all
            } else {
                limit as int
            }
            &&& place < page.turns@.len()
            &&& all <= limit ==> place >= 0
            &&& place >= 0 ==> page.turns@[place] == (TurnRow {
                context_messages: page.turns@[place].context_messages,
                ..db.turns@[i]
            }) && page.turns@[place].context_messages@ == "[]"@
            &&& place == 0 && all > limit ==> page.older == Some(db.turns@[i].seq)
            &&& all <= limit ==> page.older is None
        }),
{
    let chosen = before_bound(session@, before);
    let rows = db.turns@.filter(chosen);
    lemma_listed(db.turns@, session@, before);
    table::lemma_count(db.turns@, chosen, db.turns@.len() as int);
    table::lemma_chosen_place(db.turns@, chosen, i);
    let all = rows.len() as int;
    let place = table::count(db.turns@, chosen, i) - (all - page.turns@.len());
    if place >= 0 {
        assert(is_bare(page.turns@[place], last_rows(rows, limit as int)[place]));
        assert(last_rows(rows, limit as int)[place] == db.turns@[i]);
    }
}

/// A page of no turns is empty.
pub proof fn an_empty_page_is_empty(
    db: &ConversationDb,
    session: &str,
    before: Option<i64>,
    page: Result<TurnPage, DbError>,
    gathered: &Vec<ReplayRow>,
    replay: ReplayPage,
)
    requires
        call_ensures(ConversationDb::load_turn_page, (db, session, before, 0), page),
        call_ensures(
            ConversationDb::session_replay_page,
            (db, session, before, 0, gathered),
            replay,
        ),
    ensures
        page is Ok && page->Ok_0.turns@.len() == 0 && page->Ok_0.older is None,
        page->Ok_0.tokens_before.total == 0 && page->Ok_0.tokens_before.prompt == 0
            && page->Ok_0.tokens_before.cache_read == 0,
        replay.turns@.len() == 0 && replay.older is None,
{
}

/// What the first `most` of the chosen turns used, among the first `n` turns.
pub open spec fn used(
    turns: Seq<TurnRow>,
    chosen: spec_fn(TurnRow) -> bool,
    tokens: spec_fn(TurnRow) -> int,
    most: int,
    n: int,
) -> int
    decreases n,
{
    if n <= 0 {
        0
    } else {
        used(turns, chosen, tokens, most, n - 1) + if chosen(turns[n - 1]) && table::count(
            turns,
            chosen,
            n - 1,
        ) < most {
            tokens(turns[n - 1])
        } else {
            0
        }
    }
}

/// A number, or nothing where it is negative.
pub open spec fn or_nothing(n: int) -> int {
    if n < 0 {
        0
    } else {
        n
    }
}

spec fn first_sum(rows: Seq<TurnRow>, tokens: spec_fn(TurnRow) -> int, n: int) -> int
    decreases n,
{
    if n <= 0 {
        0
    } else {
        first_sum(rows, tokens, n - 1) + tokens(rows[n - 1])
    }
}

proof fn lemma_used(
    turns: Seq<TurnRow>,
    chosen: spec_fn(TurnRow) -> bool,
    tokens: spec_fn(TurnRow) -> int,
    most: int,
    n: int,
)
    requires
        0 <= n <= turns.len(),
        0 <= most,
    ensures
        used(turns, chosen, tokens, most, n) == first_sum(
            turns.filter(chosen),
            tokens,
            if table::count(turns, chosen, n) < most {
                table::count(turns, chosen, n)
            } else {
                most
            },
        ),
    decreases n,
{
    if n > 0 {
        lemma_used(turns, chosen, tokens, most, n - 1);
        if chosen(turns[n - 1]) {
            table::lemma_chosen_place(turns, chosen, n - 1);
        }
    }
}

proof fn lemma_sums(rows: Seq<TurnRow>, n: int)
    ensures
        sum_total(rows, n) == first_sum(rows, |turn: TurnRow| turn.token_total as int, n),
        sum_prompt(rows, n) == first_sum(rows, |turn: TurnRow| turn.token_prompt as int, n),
        sum_cache_read(rows, n) == first_sum(rows, |turn: TurnRow| turn.token_cache_read as int, n),
    decreases n,
{
    if n > 0 {
        lemma_sums(rows, n - 1);
    }
}

/// What is told to have been used before a page is what the turns used that
/// pages are taken from and that come before those on this one.
pub proof fn tokens_before_are_of_the_turns_before(
    db: &ConversationDb,
    session: &str,
    before: Option<i64>,
    limit: usize,
    page: TurnPage,
)
    requires
        call_ensures(ConversationDb::load_turn_page, (db, session, before, limit), Ok(page)),
        limit > 0,
    ensures
        ({
            let turns = db.turns@;
            let chosen = before_bound(session@, before);
            let n = turns.len() as int;
            let most = table::count(turns, chosen, n) - page.turns@.len();
            &&& page.tokens_before.total == or_nothing(
                used(turns, chosen, |turn: TurnRow| turn.token_total as int, most, n),
            )
            &&& page.tokens_before.prompt == or_nothing(
                used(turns, chosen, |turn: TurnRow| turn.token_prompt as int, most, n),
            )
            &&& page.tokens_before.cache_read == or_nothing(
                used(turns, chosen, |turn: TurnRow| turn.token_cache_read as int, most, n),
            )
        }),
{
    let turns = db.turns@;
    let chosen = before_bound(session@, before);
    let rows = turns.filter(chosen);
    let n = turns.len() as int;
    lemma_listed(turns, session@, before);
    table::lemma_count(turns, chosen, n);
    let most = table::count(turns, chosen, n) - page.turns@.len();
    assert(most == page_start(rows.len() as int, limit as int));
    lemma_used(turns, chosen, |turn: TurnRow| turn.token_total as int, most, n);
    lemma_used(turns, chosen, |turn: TurnRow| turn.token_prompt as int, most, n);
    lemma_used(turns, chosen, |turn: TurnRow| turn.token_cache_read as int, most, n);
    lemma_sums(rows, most);
    assert(sums_fit(rows, most));
    assert(i64::MIN <= sum_total(rows, most) <= i64::MAX);
}

/// The turns of a session that ended, are not hidden and are no summaries, with
/// a number below a bound.
pub open spec fn ended_before(session: Seq<char>, before: Option<i64>) -> spec_fn(TurnRow) -> bool {
    |turn: TurnRow|
        turn.session_id@ == session && !turn.is_summary && !turn.hidden && turn.status !is Running
            && turn.seq < match before {
            Some(seq) => seq,
            None => i64::MAX,
        }
}

/// Every turn of a session that ended, whichever way, and is neither hidden nor
/// a summary, is among those that a page of what turns showed is taken from,
/// where its number is below the bound. The page holds the last of them in
/// their order, and tells of each what stands in its row.
pub proof fn every_ended_turn_is_shown(
    db: &ConversationDb,
    session: &str,
    before: Option<i64>,
    limit: usize,
    gathered: &Vec<ReplayRow>,
    page: ReplayPage,
    i: int,
)
    requires
        call_ensures(
            ConversationDb::session_replay_page,
            (db, session, before, limit, gathered),
            page,
        ),
        limit > 0,
        0 <= i < db.turns@.len(),
        db.turns@[i].session_id@ == session@,
        !db.turns@[i].is_summary && !db.turns@[i].hidden,
        db.turns@[i].status is Completed || db.turns@[i].status is Interrupted,
        before matches Some(bound) ==> db.turns@[i].seq < bound,
        before is None ==> db.turns@[i].seq < i64::MAX,
    ensures
        ({
            let turn = db.turns@[i];
            let chosen = ended_before(session@, before);
            let all = table::count(db.turns@, chosen, db.turns@.len() as int);
            let place = table::count(db.turns@, chosen, i) - (all - page.turns@.len());
            let shown = page.turns@[place];
            &&& page.turns@.len() == if all <= limit {
                all
            } else {
                limit as int
            }
            &&& place < page.turns@.len()
            &&& all <= limit ==> place >= 0
            &&& place >= 0 ==> {
                &&& shown.seq == turn.seq
                &&& shown.turn_id == turn.turn_id
                &&& shown.display_content == turn.display_content
                &&& shown.assistant_content == turn.assistant_content
                &&& shown.assistant_reasoning == turn.assistant_reasoning
                &&& shown.assistant_provider_id == turn.assistant_provider_id
                &&& shown.assistant_model == turn.assistant_model
                &&& shown.interrupted <==> turn.status is Interrupted
                &&& shown.started_at == Some(turn.user_timestamp)
                &&& shown.finished_at == turn.assistant_timestamp
            }
            &&& place == 0 && all > limit ==> page.older == Some(turn.seq)
            &&& all <= limit ==> page.older is None
        }),
{
    let chosen = ended_before(session@, before);
    let rows = db.turns@.filter(chosen);
    table::lemma_same_filter(
        db.turns@,
        |turn: TurnRow| is_shown_turn(turn, session@, page_bound(before)),
        chosen,
    );
    table::lemma_count(db.turns@, chosen, db.turns@.len() as int);
    table::lemma_chosen_place(db.turns@, chosen, i);
    let all = rows.len() as int;
    let place = table::count(db.turns@, chosen, i) - (all - page.turns@.len());
    if place >= 0 {
        assert(is_replay_of(
            *db,
            last_rows(rows, limit as int)[place],
            gathered@,
            page.turns@[place],
        ));
        assert(last_rows(rows, limit as int)[place] == db.turns@[i]);
    }
}

/// What a turn showed is what is kept of it. Only where nothing is, and the
/// turn was interrupted, is it what its journal tells.
pub proof fn kept_entries_are_shown(
    db: ConversationDb,
    turn: TurnRow,
    gathered: Seq<ReplayRow>,
    replay: TurnReplay,
    r: int,
)
    requires
        is_replay_of(db, turn, gathered, replay),
    ensures
        0 <= r < db.replays@.len() && db.replays@[r].turn_id@ == turn.turn_id@ && db.replays@[r].entries@.len()
            > 0 && (forall|k: int|
            0 <= k < r ==> (#[trigger] db.replays@[k]).turn_id@ != turn.turn_id@) ==> tells(
            replay.entries@,
            db.replays@[r].entries@,
            turn.assistant_content,
        ),
        (forall|k: int|
            0 <= k < db.replays@.len() ==> (#[trigger] db.replays@[k]).turn_id@ != turn.turn_id@)
            && turn.status is Interrupted && 0 <= r < gathered.len() && gathered[r].turn_id@
            == turn.turn_id@ && (forall|k: int|
            0 <= k < r ==> (#[trigger] gathered[k]).turn_id@ != turn.turn_id@) ==> tells(
            replay.entries@,
            gathered[r].entries@,
            turn.assistant_content,
        ),
        (forall|k: int|
            0 <= k < db.replays@.len() ==> (#[trigger] db.replays@[k]).turn_id@ != turn.turn_id@)
            && turn.status !is Interrupted ==> replay.entries@.len() == 0,
{
    lemma_kept(db.replays@, turn.turn_id@, r, 0);
    lemma_kept(gathered, turn.turn_id@, r, 0);
    lemma_healed(kept_entries(db.replays@, turn.turn_id@, 0), turn.assistant_content);
    lemma_healed(kept_entries(gathered, turn.turn_id@, 0), turn.assistant_content);
    lemma_kept(db.replays@, turn.turn_id@, db.replays@.len() as int, 0);
}

/// Whether entries are told as they are, but for an answer at the end that was
/// cut after 2048 characters: that one is told whole.
pub open spec fn tells(told: Seq<ReplayEntry>, entries: Seq<ReplayEntry>, answer: String) -> bool {
    &&& told.len() == entries.len()
    &&& forall|k: int| 0 <= k < entries.len() - 1 ==> #[trigger] told[k] == entries[k]
    &&& entries.len() > 0 ==> match entries.last() {
        ReplayEntry::Text(shown) => if shown@.len() == 2049 && shown@[2048] == '…' && answer@.len()
            > 2048 && (forall|c: int| 0 <= c < 2048 ==> #[trigger] shown@[c] == answer@[c]) {
            told.last() == ReplayEntry::Text(answer)
        } else {
            told.last() == entries.last()
        },
        _ => told.last() == entries.last(),
    }
}

proof fn lemma_healed(entries: Seq<ReplayEntry>, answer: String)
    ensures
        tells(healed(entries, answer), entries, answer),
{
    if entries.len() > 0 {
        if let ReplayEntry::Text(shown) = entries.last() {
            if shown@.len() == 2049 && answer@.len() > 2048 {
                let a = shown@.take(2048);
                let b = answer@.take(2048);
                if a == b {
                    assert forall|c: int| 0 <= c < 2048 implies #[trigger] shown@[c] == answer@[c] by {
                        assert(a[c] == b[c]);
                    }
                }
                if forall|c: int| 0 <= c < 2048 ==> #[trigger] shown@[c] == answer@[c] {
                    assert(a =~= b);
                }
            }
        }
    }
}

proof fn lemma_kept(replays: Seq<ReplayRow>, turn_id: Seq<char>, r: int, from: int)
    requires
        0 <= from,
    ensures
        from <= r < replays.len() && replays[r].turn_id@ == turn_id && (forall|k: int|
            from <= k < r ==> (#[trigger] replays[k]).turn_id@ != turn_id) ==> kept_entries(
            replays,
            turn_id,
            from,
        ) == replays[r].entries@,
        (forall|k: int| from <= k < replays.len() ==> (#[trigger] replays[k]).turn_id@ != turn_id)
            ==> kept_entries(replays, turn_id, from).len() == 0,
    decreases replays.len() - from,
{
    if from < replays.len() {
        lemma_kept(replays, turn_id, r, from + 1);
        let here = replays[from];
    }
}

/// A turn is the task of a parent exactly where its session is a subagent's and
/// no turn of the session stands before it.
pub proof fn tasks_come_first(db: &ConversationDb, turn_id: &str, r: bool, i: int)
    requires
        db.wf(),
        call_ensures(ConversationDb::turn_from_parent, (db, turn_id), r),
        0 <= i < db.turns@.len(),
        db.turns@[i].turn_id@ == turn_id@,
    ensures
        r <==> (exists|s: int|
            0 <= s < db.sessions@.len() && (#[trigger] db.sessions@[s]).session_id@
                == db.turns@[i].session_id@ && db.sessions@[s].kind is Subagent) && (forall|k: int|
            0 <= k < i ==> (#[trigger] db.turns@[k]).session_id@ != db.turns@[i].session_id@),
{
    super::lemma_turn_at(db.turns@, turn_id@, i);
    let session = db.turns@[i].session_id@;
    lemma_first_turn(db.turns@, session, 0, i);
    if is_subagent(db.sessions@, session) {
        let s = choose|s: int|
            0 <= s < db.sessions@.len() && (#[trigger] db.sessions@[s]).session_id@ == session
                && db.sessions@[s].kind == SessionKind::Subagent;
        assert(db.sessions@[s].kind is Subagent);
    }
}

proof fn lemma_first_turn(turns: Seq<TurnRow>, session: Seq<char>, from: int, i: int)
    requires
        0 <= from <= i < turns.len(),
        turns[i].session_id@ == session,
    ensures
        ({
            let first = first_turn(turns, session, from);
            &&& from <= first <= i
            &&& turns[first].session_id@ == session
            &&& forall|k: int| from <= k < first ==> (#[trigger] turns[k]).session_id@ != session
        }),
    decreases turns.len() - from,
{
    if turns[from].session_id@ != session {
        lemma_first_turn(turns, session, from + 1, i);
    }
}

/// What the user said first is the message of the first turn of the session
/// that is no summary, and nothing only where there is no such turn.
pub proof fn the_first_message_is_told(
    db: &ConversationDb,
    session: &str,
    content: Option<String>,
    i: int,
)
    requires
        call_ensures(ConversationDb::first_user_content, (db, session), content),
    ensures
        0 <= i < db.turns@.len() && db.turns@[i].session_id@ == session@ && !db.turns@[i].is_summary
            && (forall|k: int|
            0 <= k < i ==> (#[trigger] db.turns@[k]).session_id@ != session@
                || db.turns@[k].is_summary) ==> content == Some(db.turns@[i].user_content),
        (forall|k: int|
            0 <= k < db.turns@.len() ==> (#[trigger] db.turns@[k]).session_id@ != session@
                || db.turns@[k].is_summary) ==> content is None,
{
    lemma_first_said(db.turns@, session@, 0, i);
}

proof fn lemma_first_said(turns: Seq<TurnRow>, session: Seq<char>, from: int, i: int)
    requires
        0 <= from,
    ensures
        from <= i < turns.len() && turns[i].session_id@ == session && !turns[i].is_summary && (
        forall|k: int|
            from <= k < i ==> (#[trigger] turns[k]).session_id@ != session || turns[k].is_summary)
            ==> first_said(turns, session, from) == i,
        (forall|k: int|
            from <= k < turns.len() ==> (#[trigger] turns[k]).session_id@ != session
                || turns[k].is_summary) ==> first_said(turns, session, from) < 0,
    decreases turns.len() - from,
{
    if from < turns.len() {
        lemma_first_said(turns, session, from + 1, i);
        let here = turns[from];
    }
}

/// Whether a message was taken into a turn: it was consumed by it.
pub open spec fn went_into(turn_id: Seq<char>) -> spec_fn(PromptRow) -> bool {
    |prompt: PromptRow|
        prompt.status is Consumed && (prompt.turn_id matches Some(id) && id@ == turn_id)
}

/// How many messages of the user the first `n` turns of a session hold.
pub open spec fn messages_before(db: ConversationDb, session: Seq<char>, n: int) -> int
    decreases n,
{
    if n <= 0 {
        0
    } else {
        let turn = db.turns@[n - 1];
        messages_before(db, session, n - 1) + if turn.session_id@ == session && !turn.is_summary {
            1 + table::count(db.prompts@, went_into(turn.turn_id@), db.prompts@.len() as int)
        } else {
            0
        }
    }
}

/// What the user said is told turn by turn: the message that began the turn,
/// and behind it those that the turn took in, in their order and in the wording
/// in which they were taken in.
pub proof fn every_message_is_told(
    db: &ConversationDb,
    session: &str,
    inputs: Vec<String>,
    i: int,
    p: int,
)
    requires
        call_ensures(ConversationDb::user_inputs, (db, session), inputs),
        0 <= i < db.turns@.len(),
        db.turns@[i].session_id@ == session@,
        !db.turns@[i].is_summary,
        0 <= p < db.prompts@.len(),
    ensures
        ({
            let turn = db.turns@[i];
            let at = messages_before(*db, session@, i);
            let chosen = went_into(turn.turn_id@);
            &&& inputs@.len() == messages_before(*db, session@, db.turns@.len() as int)
            &&& 0 <= at < inputs@.len()
            &&& inputs@[at] == turn.user_content
            &&& chosen(db.prompts@[p]) ==> inputs@[at + 1 + table::count(db.prompts@, chosen, p)]
                == match db.prompts@[p].context_content {
                Some(content) => content,
                None => db.prompts@[p].content,
            }
        }),
{
    let n = db.turns@.len() as int;
    lemma_said(*db, session@, n);
    lemma_said_at(*db, session@, n, i, p);
}

proof fn lemma_inputs(prompts: Seq<PromptRow>, turn_id: Seq<char>, n: int, p: int)
    requires
        0 <= n <= prompts.len(),
    ensures
        inputs_of(prompts, turn_id, n).len() == table::count(prompts, went_into(turn_id), n),
        0 <= p < n && went_into(turn_id)(prompts[p]) ==> 0 <= table::count(
            prompts,
            went_into(turn_id),
            p,
        ) < inputs_of(prompts, turn_id, n).len() && inputs_of(prompts, turn_id, n)[table::count(
            prompts,
            went_into(turn_id),
            p,
        )] == wording_of(prompts[p]),
    decreases n,
{
    if n > 0 {
        lemma_inputs(prompts, turn_id, n - 1, p);
        let chosen = went_into(turn_id);
        assert(redo::taken_into(prompts[n - 1], turn_id) == chosen(prompts[n - 1]));
    }
}

proof fn lemma_said(db: ConversationDb, session: Seq<char>, n: int)
    requires
        0 <= n <= db.turns@.len(),
    ensures
        said_by_user(db, session, n).len() == messages_before(db, session, n),
    decreases n,
{
    if n > 0 {
        lemma_said(db, session, n - 1);
        lemma_inputs(db.prompts@, db.turns@[n - 1].turn_id@, db.prompts@.len() as int, 0);
    }
}

proof fn lemma_said_at(db: ConversationDb, session: Seq<char>, n: int, i: int, p: int)
    requires
        0 <= i < n <= db.turns@.len(),
        db.turns@[i].session_id@ == session,
        !db.turns@[i].is_summary,
        0 <= p < db.prompts@.len(),
    ensures
        ({
            let turn = db.turns@[i];
            let said = said_by_user(db, session, n);
            let at = messages_before(db, session, i);
            let chosen = went_into(turn.turn_id@);
            &&& 0 <= at < said.len()
            &&& said[at] == turn.user_content
            &&& chosen(db.prompts@[p]) ==> at + 1 + table::count(db.prompts@, chosen, p) < said.len()
                && said[at + 1 + table::count(db.prompts@, chosen, p)] == wording_of(db.prompts@[p])
        }),
    decreases n,
{
    let turn = db.turns@[n - 1];
    lemma_said(db, session, n - 1);
    lemma_inputs(db.prompts@, turn.turn_id@, db.prompts@.len() as int, p);
    if i < n - 1 {
        lemma_said_at(db, session, n - 1, i, p);
        lemma_inputs(db.prompts@, db.turns@[i].turn_id@, db.prompts@.len() as int, p);
    }
}

/// A turn that is running is shown with what was gathered of it and without an
/// answer; it has not ended. A turn that is not there is not shown.
pub proof fn a_running_turn_is_shown(
    db: &ConversationDb,
    turn_id: &str,
    gathered: Vec<ReplayEntry>,
    replay: Option<TurnReplay>,
    i: int,
    made_up: bool,
)
    requires
        db.wf(),
        call_ensures(ConversationDb::running_turn_replay, (db, turn_id, gathered), replay),
        -1 <= i < db.turns@.len(),
        i >= 0 ==> db.turns@[i].turn_id@ == turn_id@,
        i == -1 ==> forall|k: int|
            0 <= k < db.turns@.len() ==> (#[trigger] db.turns@[k]).turn_id@ != turn_id@,
        i >= 0 ==> made_up == synthetic::is_synthetic(db.turns@[i].user_content@),
    ensures
        i == -1 ==> replay is None,
        i >= 0 ==> (replay matches Some(r) && {
            let turn = db.turns@[i];
            &&& r.turn_id == turn.turn_id && r.seq == turn.seq
            &&& r.display_content == turn.display_content
            &&& r.assistant_content@.len() == 0 && r.assistant_reasoning is None
            &&& r.entries == gathered
            &&& r.is_synthetic == made_up
            &&& !r.interrupted
            &&& r.assistant_provider_id == turn.assistant_provider_id
            &&& r.assistant_model == turn.assistant_model
            &&& r.started_at == Some(turn.user_timestamp)
            &&& r.finished_at is None
        }),
{
    if i >= 0 {
        super::lemma_turn_at(db.turns@, turn_id@, i);
    } else if db.turn_at(turn_id@) >= 0 {
        let k = db.turn_at(turn_id@);
        assert(super::is_turn_at(db.turns@, turn_id@, k));
    }
}

/// The report of a turn is the one that is read of its content, where that
/// begins with the tag of reports; a turn that is not there has none.
pub proof fn a_turn_has_the_report_that_woke_it(
    db: &ConversationDb,
    turn_id: &str,
    report: Option<JobReportResult>,
    content: &str,
    read: Option<JobReportResult>,
    i: int,
)
    requires
        db.wf(),
        call_ensures(ConversationDb::turn_job_report, (db, turn_id), report),
        call_ensures(job_report::job_report_result, (content,), read),
        -1 <= i < db.turns@.len(),
        i >= 0 ==> db.turns@[i].turn_id@ == turn_id@ && db.turns@[i].user_content@ == content@,
        i == -1 ==> forall|k: int|
            0 <= k < db.turns@.len() ==> (#[trigger] db.turns@[k]).turn_id@ != turn_id@,
    ensures
        ({
            let tag = "<background-job-report>"@;
            let told = i >= 0 && content@.len() >= tag.len() && content@.take(tag.len() as int) == tag;
            match report {
                Some(report) => told && (read matches Some(read) && report.kind == read.kind
                    && report.body@ == read.body@),
                None => !told || read is None,
            }
        }),
{
    let tag = "<background-job-report>"@;
    if content@.len() >= tag.len() {
        assert(content@.subrange(0, tag.len() as int) =~= content@.take(tag.len() as int));
    }
    if i >= 0 {
        super::lemma_turn_at(db.turns@, turn_id@, i);
    } else if db.turn_at(turn_id@) >= 0 {
        let k = db.turn_at(turn_id@);
        assert(super::is_turn_at(db.turns@, turn_id@, k));
    }
}

/// A text that was cut after 2048 characters is made whole where it is the last
/// thing shown and the answer goes on from it. Anything else stays as it is.
pub proof fn a_text_that_was_cut_is_made_whole(entries: Seq<ReplayEntry>, answer: String, shown: String)
    ensures
        healed(entries, answer).len() == entries.len(),
        forall|i: int|
            0 <= i < entries.len() - 1 ==> #[trigger] healed(entries, answer)[i] == entries[i],
        entries.len() > 0 && entries.last() == ReplayEntry::Text(shown) && answer@.len() > 2048
            && shown@ == answer@.take(2048).push('…') ==> healed(entries, answer).last()
            == ReplayEntry::Text(answer),
        entries.len() > 0 && healed(entries, answer).last() != entries.last() ==> (
        entries.last() matches ReplayEntry::Text(cut) && answer@.len() > 2048 && cut@ == answer@.take(
            2048,
        ).push('…')),
{
    if entries.len() > 0 && entries.last() == ReplayEntry::Text(shown) && answer@.len() > 2048
        && shown@ == answer@.take(2048).push('…') {
        assert(shown@.take(2048) =~= answer@.take(2048));
    }
    if is_clipped(entries, answer@) {
        let cut = entries.last()->Text_0@;
        assert(cut =~= answer@.take(2048).push('…'));
    }
}

} // verus!
