//! Broken caches: a request that could have read much of its prompt from the
//! provider's cache and did not.
//!
//! Each request is held against the one before it in the same session. What it
//! could have read is what both prompts have in common at most. Reading less
//! than 95 % of it, and at least 2000 tokens less, is a break. The first
//! request of a session has nothing to read, and the one after the history was
//! folded is expected to read little. A provider that says nothing of its cache
//! is not judged.

use vstd::prelude::*;

use crate::llm::cache_prefix::PrefixDiff;
use crate::state::usage::Usage;
use crate::text::same_text;
use crate::text_map::TextMap;

verus! {

/// The requests that are judged: those of the conversation itself.
pub const MAIN_SCOPE: &'static str = "chat";

/// Fewer lost tokens than these are no break: caches hold whole blocks.
pub const MISS_FLOOR: u64 = 2_000;

/// Nanoseconds in a second.
pub const NANOS: u64 = 1_000_000_000;

/// Why a cache was broken.
#[derive(Debug, PartialEq, Eq)]
pub enum CacheBreakCause {
    /// The system prompt is another.
    SystemPrompt,
    /// The tools are others.
    Tools { changes: String },
    /// A message of the history was rewritten.
    History { at: usize, role: String },
    /// Nothing was changed: the provider dropped what it had.
    Provider,
}

impl CacheBreakCause {
    /// A copy of the cause.
    pub fn copy(&self) -> (r: Self)
        ensures
            r == *self,
    {
        match self {
            CacheBreakCause::SystemPrompt => CacheBreakCause::SystemPrompt,
            CacheBreakCause::Tools { changes } => CacheBreakCause::Tools {
                changes: changes.clone(),
            },
            CacheBreakCause::History { at, role } => CacheBreakCause::History {
                at: *at,
                role: role.clone(),
            },
            CacheBreakCause::Provider => CacheBreakCause::Provider,
        }
    }
}

/// A broken cache.
#[derive(Debug, PartialEq, Eq)]
pub struct CacheBreak {
    pub session_id: String,
    pub turn_id: Option<String>,
    /// The tokens that could have been read from the cache and were not.
    pub lost_tokens: u64,
    pub cause: CacheBreakCause,
    /// How long it was since the request before, in seconds.
    pub idle_secs: u64,
}

/// The last request of a session.
#[derive(Debug, Clone, Copy, PartialEq, Eq, Structural)]
pub struct LastRequest {
    /// The tokens of the whole prompt, read from the cache or not.
    pub prompt: u64,
    /// When it was sent, in nanoseconds of a clock that does not go back.
    pub at: u64,
}

/// What is known of the requests so far.
#[derive(Debug)]
pub struct Tracker {
    pub last: TextMap<LastRequest>,
    /// The sessions whose history was folded since their last request.
    pub rebuilding: TextMap<()>,
    /// The breaks of each session that were not taken yet.
    pub pending: TextMap<Vec<CacheBreak>>,
}

/// The tokens a request could have read from the cache.
pub open spec fn reachable(previous: LastRequest, usage: Usage) -> u64 {
    if previous.prompt < usage.prompt_tokens {
        previous.prompt
    } else {
        usage.prompt_tokens
    }
}

/// The tokens it could have read and did not.
pub open spec fn lost(previous: LastRequest, usage: Usage) -> int {
    let gap = reachable(previous, usage) - usage.cache_read_tokens;
    if gap < 0 {
        0
    } else {
        gap
    }
}

/// Whether that is a break: less than 95 % was read, and the gap is no small
/// one.
pub open spec fn is_break(previous: LastRequest, usage: Usage) -> bool {
    100 * usage.cache_read_tokens < 95 * reachable(previous, usage) && lost(previous, usage)
        >= MISS_FLOOR
}

/// Whether `cause` is why the cache was broken.
pub open spec fn is_cause(prefix: PrefixDiff, cause: CacheBreakCause) -> bool {
    if prefix.same == 0 {
        cause is SystemPrompt
    } else if prefix.tools_changed {
        cause matches CacheBreakCause::Tools { changes } && changes@ == match prefix.tools_diff {
            Some(diff) => diff@,
            None => Seq::empty(),
        }
    } else {
        match prefix.rewritten_at {
            Some((at, role)) => cause matches CacheBreakCause::History { at: a, role: r } && a == at
                && r@ == role@,
            None => cause is Provider,
        }
    }
}

/// Whether a request is judged.
pub open spec fn is_judged(scope: Seq<char>, session: Option<&str>, usage: Option<&Usage>) -> bool {
    &&& scope == MAIN_SCOPE@
    &&& session is Some
    &&& usage matches Some(usage) && usage.cache_reported
}

/// The breaks of a session that were not taken yet.
pub open spec fn waiting(pending: Map<Seq<char>, Vec<CacheBreak>>, session: Seq<char>) -> Seq<
    CacheBreak,
> {
    if pending.contains_key(session) {
        pending[session]@
    } else {
        Seq::empty()
    }
}

/// Whether `found` is the break of a request.
pub open spec fn is_found(
    session: Seq<char>,
    turn: Option<&str>,
    prefix: PrefixDiff,
    previous: LastRequest,
    usage: Usage,
    now: u64,
    found: CacheBreak,
) -> bool {
    &&& found.session_id@ == session
    &&& match (found.turn_id, turn) {
        (Some(a), Some(b)) => a@ == b@,
        (None, None) => true,
        _ => false,
    }
    &&& found.lost_tokens == lost(previous, usage)
    &&& is_cause(prefix, found.cause)
    &&& found.idle_secs == if now > previous.at {
        (now - previous.at) / NANOS as int
    } else {
        0
    }
}

/// Why the cache was broken.
fn cause_of(prefix: &PrefixDiff) -> (cause: CacheBreakCause)
    ensures
        is_cause(*prefix, cause),
{
    if prefix.same == 0 {
        return CacheBreakCause::SystemPrompt;
    }
    if prefix.tools_changed {
        let changes = match &prefix.tools_diff {
            Some(diff) => diff.clone(),
            None => {
                let none = String::new();
                assert(none@ =~= Seq::empty());
                none
            },
        };
        return CacheBreakCause::Tools { changes };
    }
    match prefix.rewritten_at {
        Some((at, role)) => CacheBreakCause::History { at, role: role.to_owned() },
        None => CacheBreakCause::Provider,
    }
}

impl Tracker {
    pub open spec fn wf(&self) -> bool {
        self.last.wf() && self.rebuilding.wf() && self.pending.wf()
    }

    /// Before the first request.
    pub fn new() -> (tracker: Self)
        ensures
            tracker.wf(),
            tracker.last@ == Map::<Seq<char>, LastRequest>::empty(),
            tracker.rebuilding@ == Map::<Seq<char>, ()>::empty(),
            tracker.pending@ == Map::<Seq<char>, Vec<CacheBreak>>::empty(),
    {
        Tracker { last: TextMap::new(), rebuilding: TextMap::new(), pending: TextMap::new() }
    }

    /// The break that a judged request is, where it is one: the request before
    /// it. A request after the history was folded is none.
    pub open spec fn broken(&self, session: Seq<char>, usage: Usage) -> Option<LastRequest> {
        if self.last@.contains_key(session) && is_break(self.last@[session], usage)
            && !self.rebuilding@.contains_key(session) {
            Some(self.last@[session])
        } else {
            None
        }
    }
}

/// Whether `after` is what is known once a request was judged.
pub open spec fn is_result(
    before: Tracker,
    after: Tracker,
    scope: Seq<char>,
    session: Option<&str>,
    turn: Option<&str>,
    prefix: PrefixDiff,
    usage: Option<&Usage>,
    now: u64,
) -> bool {
    if !is_judged(scope, session, usage) {
        after == before
    } else {
        let key = session->0@;
        let request = LastRequest { prompt: usage->0.prompt_tokens, at: now };
        &&& after.last@ == before.last@.insert(key, request)
        &&& after.rebuilding@ == before.rebuilding@.remove(key)
        &&& match before.broken(key, *usage->0) {
            None => after.pending@ == before.pending@,
            Some(previous) => {
                &&& after.pending@.dom() == before.pending@.dom().insert(key)
                &&& forall|other: Seq<char>|
                    other != key && before.pending@.contains_key(other) ==> after.pending@[other]
                        == #[trigger] before.pending@[other]
                &&& after.pending@[key]@.len() == waiting(before.pending@, key).len() + 1
                &&& after.pending@[key]@.drop_last() == waiting(before.pending@, key)
                &&& is_found(
                    key,
                    turn,
                    prefix,
                    previous,
                    *usage->0,
                    now,
                    after.pending@[key]@.last(),
                )
            },
        }
    }
}

/// Judges a request that succeeded.
pub fn judge(
    tracker: &mut Tracker,
    scope: &str,
    session: Option<&str>,
    turn: Option<&str>,
    prefix: &PrefixDiff,
    usage: Option<&Usage>,
    now: u64,
)
    requires
        old(tracker).wf(),
    ensures
        final(tracker).wf(),
        is_result(*old(tracker), *final(tracker), scope@, session, turn, *prefix, usage, now),
{
    let (session, usage) = match (session, usage) {
        (Some(session), Some(usage)) => (session, usage),
        _ => {
            return ;
        },
    };
    if !same_text(scope, MAIN_SCOPE) || !usage.cache_reported {
        return ;
    }
    let rebuilt = tracker.rebuilding.take(session).is_some();
    let previous = match tracker.last.insert(
        session.to_owned(),
        LastRequest { prompt: usage.prompt_tokens, at: now },
    ) {
        Some(previous) => previous,
        None => {
            return ;
        },
    };
    let reach: u64 = if previous.prompt < usage.prompt_tokens {
        previous.prompt
    } else {
        usage.prompt_tokens
    };
    let read: u64 = usage.cache_read_tokens;
    let gap: u64 = if reach > read {
        reach - read
    } else {
        0
    };
    if 100 * read as u128 >= 95 * reach as u128 || gap < MISS_FLOOR {
        return ;
    }
    if rebuilt {
        return ;
    }
    let idle: u64 = if now > previous.at {
        (now - previous.at) / NANOS
    } else {
        0
    };
    let found = CacheBreak {
        session_id: session.to_owned(),
        turn_id: match turn {
            Some(turn) => Some(turn.to_owned()),
            None => None,
        },
        lost_tokens: gap,
        cause: cause_of(prefix),
        idle_secs: idle,
    };
    let mut list = match tracker.pending.take(session) {
        Some(list) => list,
        None => Vec::new(),
    };
    let ghost before = list@;
    proof {
        assert(before =~= waiting(old(tracker).pending@, session@));
    }
    list.push(found);
    proof {
        assert(list@.drop_last() =~= before);
    }
    tracker.pending.insert(session.to_owned(), list);
    proof {
        assert(tracker.pending@.dom() =~= old(tracker).pending@.dom().insert(session@));
    }
}

/// Notes that the history of a session was folded, so that its next
/// request is no break.
pub fn note_cache_rebuild(tracker: &mut Tracker, session: &str)
    requires
        old(tracker).wf(),
    ensures
        final(tracker).wf(),
        final(tracker).rebuilding@ == old(tracker).rebuilding@.insert(session@, ()),
        final(tracker).last == old(tracker).last,
        final(tracker).pending == old(tracker).pending,
{
    tracker.rebuilding.insert(session.to_owned(), ());
}

/// Takes the breaks of a session that were not taken yet.
pub fn take_cache_breaks(tracker: &mut Tracker, session: &str) -> (breaks: Vec<CacheBreak>)
    requires
        old(tracker).wf(),
    ensures
        final(tracker).wf(),
        breaks@ == waiting(old(tracker).pending@, session@),
        final(tracker).pending@ == old(tracker).pending@.remove(session@),
        final(tracker).last == old(tracker).last,
        final(tracker).rebuilding == old(tracker).rebuilding,
{
    match tracker.pending.take(session) {
        Some(breaks) => breaks,
        None => {
            let none: Vec<CacheBreak> = Vec::new();
            assert(none@ =~= Seq::empty());
            none
        },
    }
}

/// Forgets a session.
pub fn forget_session(tracker: &mut Tracker, session: &str)
    requires
        old(tracker).wf(),
    ensures
        final(tracker).wf(),
        final(tracker).last@ == old(tracker).last@.remove(session@),
        final(tracker).rebuilding@ == old(tracker).rebuilding@.remove(session@),
        final(tracker).pending@ == old(tracker).pending@.remove(session@),
{
    tracker.last.take(session);
    tracker.rebuilding.take(session);
    tracker.pending.take(session);
}

// ---------------------------------------------------------------------------
// Laws
// ---------------------------------------------------------------------------

/// A request that reads at least 95 % of what it could is no break, and
/// neither is one that lost fewer than 2000 tokens.
pub proof fn small_gaps_are_no_breaks(previous: LastRequest, usage: Usage)
    requires
        100 * usage.cache_read_tokens >= 95 * previous.prompt || previous.prompt
            < usage.cache_read_tokens + 2000,
    ensures
        !is_break(previous, usage),
{
}

/// The first request of a session is no break, and neither is the first after
/// its history was folded. That one takes the leave away with it.
pub proof fn expected_misses_are_no_breaks(tracker: Tracker, session: Seq<char>, usage: Usage)
    ensures
        !tracker.last@.contains_key(session) ==> tracker.broken(session, usage) is None,
        tracker.rebuilding@.contains_key(session) ==> tracker.broken(session, usage) is None,
        !tracker.rebuilding@.remove(session).contains_key(session),
{
}

/// What a request could have read is no more than either prompt has, and all of
/// the shorter one.
pub open spec fn in_reach(previous: LastRequest, usage: Usage, tokens: int) -> bool {
    &&& tokens <= previous.prompt && tokens <= usage.prompt_tokens
    &&& tokens == previous.prompt || tokens == usage.prompt_tokens
}

/// A request of the conversation that read less than 95 % of what it could
/// have, and at least 2000 tokens less, is a break, unless it is the first of
/// its session or the first since its history was folded. The break comes
/// behind those that wait, and says what was lost and since when. Where it is
/// none, nothing is added.
pub proof fn great_misses_are_breaks(
    before: Tracker,
    after: Tracker,
    session: &str,
    turn: Option<&str>,
    prefix: PrefixDiff,
    usage: &Usage,
    now: u64,
    tokens: int,
)
    requires
        is_result(before, after, "chat"@, Some(session), turn, prefix, Some(usage), now),
        usage.cache_reported,
        before.last@.contains_key(session@),
        !before.rebuilding@.contains_key(session@),
        in_reach(before.last@[session@], *usage, tokens),
    ensures
        ({
            let previous = before.last@[session@];
            let read = usage.cache_read_tokens;
            if tokens - read >= 2_000 && 100 * read < 95 * tokens {
                let list = after.pending@[session@]@;
                let found = list.last();
                &&& after.pending@.contains_key(session@)
                &&& list.len() == 1 + if before.pending@.contains_key(session@) {
                    before.pending@[session@]@.len()
                } else {
                    0
                }
                &&& before.pending@.contains_key(session@) ==> list.drop_last()
                    == before.pending@[session@]@
                &&& found.session_id@ == session@
                &&& turn matches Some(turn) ==> (found.turn_id matches Some(id) && id@ == turn@)
                &&& turn is None ==> found.turn_id is None
                &&& found.lost_tokens == tokens - read
                &&& now >= previous.at ==> found.idle_secs * 1_000_000_000 <= now - previous.at < (
                found.idle_secs + 1) * 1_000_000_000
                &&& now < previous.at ==> found.idle_secs == 0
            } else {
                after.pending@ == before.pending@
            }
        }),
{
    let gap = now - before.last@[session@].at;
    if gap > 0 {
        assert(gap == 1_000_000_000 * (gap / 1_000_000_000) + gap % 1_000_000_000);
    }
}

/// A break is blamed on the system prompt where nothing at the beginning is the
/// same, else on the tools where they changed, else on the history where a
/// message of it was rewritten, and on the provider where nothing was.
pub proof fn breaks_have_their_cause(
    before: Tracker,
    after: Tracker,
    session: &str,
    turn: Option<&str>,
    prefix: PrefixDiff,
    usage: &Usage,
    now: u64,
)
    requires
        is_result(before, after, "chat"@, Some(session), turn, prefix, Some(usage), now),
        after.pending@ != before.pending@,
    ensures
        ({
            let cause = after.pending@[session@]@.last().cause;
            &&& prefix.same == 0 <==> cause is SystemPrompt
            &&& prefix.same > 0 && prefix.tools_changed <==> cause is Tools
            &&& prefix.same > 0 && !prefix.tools_changed && prefix.rewritten_at is Some
                <==> cause is History
            &&& prefix.same > 0 && !prefix.tools_changed && prefix.rewritten_at is None
                <==> cause is Provider
            &&& cause matches CacheBreakCause::Tools { changes } ==> prefix.tools_diff
                matches Some(diff) ==> changes@ == diff@
            &&& cause matches CacheBreakCause::History { at, role } ==> prefix.rewritten_at
                matches Some((place, now_there)) ==> place == at && now_there@ == role@
        }),
{
}

/// Only requests of the conversation itself are judged, in a session, and only
/// where the provider says something of its cache. Any other leaves everything
/// as it was.
pub proof fn other_requests_leave_no_trace(
    before: Tracker,
    after: Tracker,
    scope: Seq<char>,
    session: Option<&str>,
    turn: Option<&str>,
    prefix: PrefixDiff,
    usage: Option<&Usage>,
    now: u64,
)
    requires
        is_result(before, after, scope, session, turn, prefix, usage, now),
        scope != "chat"@ || session is None || usage is None || !usage->0.cache_reported,
    ensures
        after == before,
{
}

/// A judged request is what the next of its session is held against. It takes
/// the leave of a folded history away, and touches no other session.
pub proof fn a_judged_request_is_the_last(
    before: Tracker,
    after: Tracker,
    session: &str,
    turn: Option<&str>,
    prefix: PrefixDiff,
    usage: &Usage,
    now: u64,
    other: Seq<char>,
)
    requires
        is_result(before, after, "chat"@, Some(session), turn, prefix, Some(usage), now),
        usage.cache_reported,
        other != session@,
    ensures
        after.last@.contains_key(session@),
        after.last@[session@].prompt == usage.prompt_tokens,
        after.last@[session@].at == now,
        !after.rebuilding@.contains_key(session@),
        before.last@.contains_key(other) <==> after.last@.contains_key(other),
        before.last@.contains_key(other) ==> after.last@[other] == before.last@[other],
        before.rebuilding@.contains_key(other) <==> after.rebuilding@.contains_key(other),
        before.pending@.contains_key(other) <==> after.pending@.contains_key(other),
        before.pending@.contains_key(other) ==> after.pending@[other] == before.pending@[other],
        !before.last@.contains_key(session@) || before.rebuilding@.contains_key(session@)
            ==> after.pending@ == before.pending@,
{
    assert(after.pending@.contains_key(other) <==> after.pending@.dom().contains(other));
    assert(before.pending@.contains_key(other) <==> before.pending@.dom().contains(other));
}

} // verus!
