//! Messages that came in while a turn was running.

use vstd::prelude::*;

use crate::json::{self, quote_json};
use crate::text::{same_text, trimmed};

use super::projection::{self, journal_segment_projection};
use super::rows::{
    copy_opt, DbError, EventRow, PromptRow, PromptStatus, SegmentRow, SegmentStatus,
};
use super::ConversationDb;

verus! {

/// Whether a message waits in a queue.
pub open spec fn waits_in(prompt: PromptRow, queue: Seq<char>) -> bool {
    prompt.status == PromptStatus::Queued && prompt.queue_session_id is Some
        && prompt.queue_session_id->Some_0@ == queue
}

/// Whether a message waits in a queue.
fn is_waiting_in(prompt: &PromptRow, queue: &str) -> (r: bool)
    ensures
        r == waits_in(*prompt, queue@),
{
    if prompt.status != PromptStatus::Queued {
        return false;
    }
    match &prompt.queue_session_id {
        Some(id) => same_text(id.as_str(), queue),
        None => false,
    }
}

/// Whether a segment belongs to a generation.
pub open spec fn of_generation(segment: SegmentRow, turn_id: Seq<char>, revision: i64) -> bool {
    segment.turn_id@ == turn_id && segment.revision == revision
}

/// The ids of the messages that wait in a queue, among the first `n`.
pub open spec fn waiting_ids(prompts: Seq<PromptRow>, queue: Seq<char>, n: int) -> Seq<Seq<char>>
    decreases n,
{
    if n <= 0 {
        Seq::empty()
    } else if waits_in(prompts[n - 1], queue) {
        waiting_ids(prompts, queue, n - 1).push(prompts[n - 1].prompt_id@)
    } else {
        waiting_ids(prompts, queue, n - 1)
    }
}

/// Ids as a JSON list, up to its closing bracket.
pub open spec fn id_list_open(ids: Seq<Seq<char>>) -> Seq<char>
    decreases ids.len(),
{
    if ids.len() == 0 {
        "["@
    } else if ids.len() == 1 {
        "["@ + json::json_quoted(ids[0])
    } else {
        id_list_open(ids.drop_last()) + ","@ + json::json_quoted(ids.last())
    }
}

/// Ids as a JSON list.
pub open spec fn id_list(ids: Seq<Seq<char>>) -> Seq<char> {
    id_list_open(ids) + "]"@
}

/// A message after a turn took it in. The first one carries what the turn had
/// said and thought before it.
pub open spec fn taken(
    before: PromptRow,
    after: PromptRow,
    turn_id: String,
    now: String,
    preceding: Option<Seq<char>>,
    thought: Option<Seq<char>>,
) -> bool {
    &&& after == (PromptRow {
        status: PromptStatus::Consumed,
        consumed_at: Some(now),
        turn_id: Some(turn_id),
        context_content: Some(before.content),
        preceding_assistant_content: after.preceding_assistant_content,
        preceding_assistant_reasoning: after.preceding_assistant_reasoning,
        ..before
    })
    &&& json::opt_text(after.preceding_assistant_content) == preceding
    &&& json::opt_text(after.preceding_assistant_reasoning) == thought
}

/// The messages after a turn took in those that wait in `queue`, as far as the
/// first `n` go.
pub open spec fn all_taken(
    before: Seq<PromptRow>,
    after: Seq<PromptRow>,
    queue: Seq<char>,
    turn_id: String,
    now: String,
    preceding: (Seq<char>, Option<Seq<char>>),
    n: int,
) -> bool {
    &&& after.len() == before.len()
    &&& forall|k: int|
        0 <= k < n ==> if waits_in(#[trigger] before[k], queue) {
            if waiting_ids(before, queue, k).len() == 0 {
                taken(
                    before[k],
                    after[k],
                    turn_id,
                    now,
                    projection::worded(preceding.0),
                    preceding.1,
                )
            } else {
                taken(before[k], after[k], turn_id, now, None, None)
            }
        } else {
            after[k] == before[k]
        }
    &&& forall|k: int| n <= k < before.len() ==> after[k] == #[trigger] before[k]
}

/// Takes in the messages that wait in `queue`. Gives back their ids.
fn take_waiting(
    prompts: &mut Vec<PromptRow>,
    queue: &str,
    turn_id: &String,
    now: &String,
    preceding: &(String, Option<String>),
) -> (ids: Vec<String>)
    ensures
        all_taken(
            old(prompts)@,
            final(prompts)@,
            queue@,
            *turn_id,
            *now,
            (preceding.0@, json::opt_text(preceding.1)),
            old(prompts)@.len() as int,
        ),
        json::texts(ids@) == waiting_ids(old(prompts)@, queue@, old(prompts)@.len() as int),
{
    let ghost before = prompts@;
    let ghost told = (preceding.0@, json::opt_text(preceding.1));
    let mut ids: Vec<String> = Vec::new();
    let mut k: usize = 0;
    let said = !trimmed(preceding.0.as_str()).as_str().is_empty();
    while k < prompts.len()
        invariant
            k <= prompts@.len(),
            told == (preceding.0@, json::opt_text(preceding.1)),
            said == (projection::worded(preceding.0@) is Some),
            all_taken(before, prompts@, queue@, *turn_id, *now, told, k as int),
            json::texts(ids@) =~= waiting_ids(before, queue@, k as int),
        decreases prompts@.len() - k,
    {
        let ghost half = prompts@;
        assert(prompts@[k as int] == before[k as int]);
        if is_waiting_in(&prompts[k], queue) {
            let first = ids.len() == 0;
            let content = prompts[k].content.clone();
            let id = prompts[k].prompt_id.clone();
            let row = &mut prompts[k];
            row.status = PromptStatus::Consumed;
            row.consumed_at = Some(now.clone());
            row.turn_id = Some(turn_id.clone());
            row.context_content = Some(content);
            row.preceding_assistant_content = if first && said {
                Some(preceding.0.clone())
            } else {
                None
            };
            row.preceding_assistant_reasoning = if first {
                copy_opt(&preceding.1)
            } else {
                None
            };
            ids.push(id);
            proof {
                assert(json::texts(ids@.drop_last()) =~= waiting_ids(before, queue@, k as int));
            }
        }
        proof {
            assert forall|j: int| 0 <= j < before.len() && j != k implies prompts@[j]
                == half[j] by {}
        }
        k += 1;
    }
    ids
}

/// Ids as a JSON list.
fn write_id_list(ids: &Vec<String>) -> (out: String)
    ensures
        out@ == id_list(json::texts(ids@)),
{
    let ghost all = json::texts(ids@);
    let mut out = "[".to_owned();
    let mut i: usize = 0;
    proof {
        assert(all.take(0) =~= Seq::empty());
    }
    while i < ids.len()
        invariant
            i <= ids@.len(),
            all == json::texts(ids@),
            out@ == id_list_open(all.take(i as int)),
        decreases ids@.len() - i,
    {
        proof {
            assert(all.take(i + 1).drop_last() =~= all.take(i as int));
            assert(all.take(i + 1).last() == ids@[i as int]@);
            assert(i == 0 ==> all.take(i + 1)[0] == ids@[0]@);
        }
        if i > 0 {
            out.append(",");
        }
        out.append(quote_json(ids[i].as_str()).as_str());
        i += 1;
    }
    assert(all.take(all.len() as int) =~= all);
    out.append("]");
    out
}

/// Whether a generation has a segment 0.
pub open spec fn has_first(segments: Seq<SegmentRow>, turn_id: Seq<char>, revision: i64) -> bool {
    exists|i: int|
        0 <= i < segments.len() && of_generation(#[trigger] segments[i], turn_id, revision)
            && segments[i].segment_index == 0
}

/// Where segment 0 of a generation belongs, from `from` on.
pub open spec fn first_place(
    segments: Seq<SegmentRow>,
    turn_id: Seq<char>,
    revision: i64,
    from: int,
) -> int
    decreases segments.len() - from,
{
    if from >= segments.len() || (of_generation(segments[from], turn_id, revision)
        && segments[from].segment_index > 0) {
        from
    } else {
        first_place(segments, turn_id, revision, from + 1)
    }
}

/// A segment that was just begun.
pub open spec fn begun(turn_id: String, revision: i64, segment_index: i64, now: String) -> SegmentRow {
    SegmentRow {
        turn_id,
        revision,
        segment_index,
        status: SegmentStatus::Running,
        started_at: now,
        finished_at: None,
    }
}

/// The segments with segment 0 of a generation begun where it was missing.
pub open spec fn with_first(
    segments: Seq<SegmentRow>,
    turn_id: String,
    revision: i64,
    now: String,
) -> Seq<SegmentRow> {
    if has_first(segments, turn_id@, revision) {
        segments
    } else {
        segments.insert(
            first_place(segments, turn_id@, revision, 0),
            begun(turn_id, revision, 0, now),
        )
    }
}

/// The last segment of a generation, and -1 where there is none, among the
/// first `n`.
pub open spec fn last_segment(
    segments: Seq<SegmentRow>,
    turn_id: Seq<char>,
    revision: i64,
    n: int,
) -> int
    decreases n,
{
    if n <= 0 {
        -1
    } else if of_generation(segments[n - 1], turn_id, revision) {
        n - 1
    } else {
        last_segment(segments, turn_id, revision, n - 1)
    }
}

pub proof fn lemma_first_place(segments: Seq<SegmentRow>, turn_id: Seq<char>, revision: i64, from: int)
    requires
        0 <= from <= segments.len(),
    ensures
        ({
            let p = first_place(segments, turn_id, revision, from);
            &&& from <= p <= segments.len()
            &&& forall|i: int|
                from <= i < p ==> !(of_generation(#[trigger] segments[i], turn_id, revision)
                    && segments[i].segment_index > 0)
            &&& p < segments.len() ==> of_generation(segments[p], turn_id, revision)
                && segments[p].segment_index > 0
        }),
    decreases segments.len() - from,
{
    if from >= segments.len() || (of_generation(segments[from], turn_id, revision)
        && segments[from].segment_index > 0) {
    } else {
        lemma_first_place(segments, turn_id, revision, from + 1);
    }
}

proof fn lemma_with_first_ordered(
    segments: Seq<SegmentRow>,
    turn_id: String,
    revision: i64,
    now: String,
)
    requires
        super::segments_ordered(segments),
    ensures
        super::segments_ordered(with_first(segments, turn_id, revision, now)),
{
    if !has_first(segments, turn_id@, revision) {
        lemma_first_place(segments, turn_id@, revision, 0);
        let p = first_place(segments, turn_id@, revision, 0);
        let after = with_first(segments, turn_id, revision, now);
        assert forall|i: int, j: int|
            0 <= i < j < after.len() && #[trigger] after[i].turn_id@ == #[trigger] after[j].turn_id@
                && after[i].revision == after[j].revision implies after[i].segment_index
            < after[j].segment_index by {
            if i == p {
                let k = j - 1;
                assert(after[j] == segments[k]);
                if k > p {
                    assert(segments[p].turn_id@ == segments[k].turn_id@);
                }
            } else if j == p {
                assert(after[i] == segments[i]);
                assert(of_generation(segments[i], turn_id@, revision));
            } else {
                let a = if i < p {
                    i
                } else {
                    i - 1
                };
                let b = if j < p {
                    j
                } else {
                    j - 1
                };
                assert(after[i] == segments[a] && after[j] == segments[b]);
                assert(segments[a].turn_id@ == segments[b].turn_id@);
            }
        }
    }
}

/// Begins segment 0 of a generation where it is missing.
fn ensure_first(segments: &mut Vec<SegmentRow>, turn_id: &String, revision: i64, now: &String)
    ensures
        final(segments)@ == with_first(old(segments)@, *turn_id, revision, *now),
{
    let ghost before = segments@;
    let mut i: usize = 0;
    while i < segments.len()
        invariant
            i <= segments@.len(),
            segments@ == before,
            forall|k: int|
                0 <= k < i ==> !(of_generation(#[trigger] before[k], turn_id@, revision)
                    && before[k].segment_index == 0),
        decreases segments@.len() - i,
    {
        if segments[i].segment_index == 0 && segments[i].revision == revision && same_text(
            segments[i].turn_id.as_str(),
            turn_id.as_str(),
        ) {
            assert(of_generation(before[i as int], turn_id@, revision));
            return ;
        }
        i += 1;
    }
    let mut p: usize = 0;
    while p < segments.len() && !(segments[p].segment_index > 0 && segments[p].revision == revision
        && same_text(segments[p].turn_id.as_str(), turn_id.as_str()))
        invariant
            p <= segments@.len(),
            segments@ == before,
            first_place(before, turn_id@, revision, 0) == first_place(
                before,
                turn_id@,
                revision,
                p as int,
            ),
        decreases segments@.len() - p,
    {
        p += 1;
    }
    segments.insert(
        p,
        SegmentRow {
            turn_id: turn_id.clone(),
            revision,
            segment_index: 0,
            status: SegmentStatus::Running,
            started_at: now.clone(),
            finished_at: None,
        },
    );
}

/// The last segment of a generation.
pub fn find_last_segment(segments: &Vec<SegmentRow>, turn_id: &str, revision: i64) -> (at: Option<
    usize,
>)
    ensures
        match at {
            Some(i) => i < segments.len() && last_segment(
                segments@,
                turn_id@,
                revision,
                segments@.len() as int,
            ) == i && of_generation(segments@[i as int], turn_id@, revision),
            None => last_segment(segments@, turn_id@, revision, segments@.len() as int) == -1,
        },
{
    let mut n: usize = segments.len();
    while n > 0
        invariant
            n <= segments@.len(),
            last_segment(segments@, turn_id@, revision, segments@.len() as int) == last_segment(
                segments@,
                turn_id@,
                revision,
                n as int,
            ),
        decreases n,
    {
        let at: usize = n - 1;
        if segments[at].revision == revision && same_text(segments[at].turn_id.as_str(), turn_id) {
            return Some(at);
        }
        n -= 1;
    }
    None
}

/// No segment of a generation stands after its last one, and its index is the
/// highest.
pub proof fn lemma_last_segment(
    segments: Seq<SegmentRow>,
    turn_id: Seq<char>,
    revision: i64,
    n: int,
)
    requires
        0 <= n <= segments.len(),
    ensures
        ({
            let at = last_segment(segments, turn_id, revision, n);
            &&& -1 <= at < n
            &&& at >= 0 ==> of_generation(segments[at], turn_id, revision)
            &&& forall|i: int|
                at < i < n ==> !of_generation(#[trigger] segments[i], turn_id, revision)
        }),
    decreases n,
{
    if n > 0 && !of_generation(segments[n - 1], turn_id, revision) {
        lemma_last_segment(segments, turn_id, revision, n - 1);
    }
}

/// An event that says which messages a segment took in.
pub open spec fn is_taking(
    event: EventRow,
    turn_id: String,
    revision: i64,
    segment_index: i64,
    ids: Seq<Seq<char>>,
    now: String,
) -> bool {
    &&& event.turn_id == turn_id
    &&& event.revision == revision
    &&& event.segment_index == segment_index
    &&& event.kind@ == "queued_prompts_consumed"@
    &&& event.call_id is None && event.name is None && event.blob_payload is None && event.ok
        is None
    &&& json::opt_text(event.text_payload) == Some(id_list(ids))
    &&& event.created_at == now
}

/// The tables after a turn took in the messages that waited in `queue`: the
/// last segment of its journal is closed, unless it was replaced, and a new
/// one is begun.
pub open spec fn waiting_taken(
    before: ConversationDb,
    after: ConversationDb,
    queue: Seq<char>,
    turn_id: String,
    revision: i64,
    now: String,
) -> bool {
    let segments = with_first(before.segments@, turn_id, revision, now);
    let at = last_segment(segments, turn_id@, revision, segments.len() as int);
    let last = segments[at];
    let next = begun(turn_id, revision, (last.segment_index + 1) as i64, now);
    let preceding = if last.status == SegmentStatus::Running {
        projection::segment_projection(before.events@, turn_id@, revision, last.segment_index)
    } else {
        (Seq::empty(), None)
    };
    let ids = waiting_ids(before.prompts@, queue, before.prompts@.len() as int);
    &&& all_taken(
        before.prompts@,
        after.prompts@,
        queue,
        turn_id,
        now,
        preceding,
        before.prompts@.len() as int,
    )
    &&& after.events@.len() == before.events@.len() + 1
    &&& after.events@.drop_last() == before.events@
    &&& if last.status == SegmentStatus::Superseded {
        &&& after.segments@ == segments.push(next)
        &&& is_taking(
            after.events@.last(),
            turn_id,
            revision,
            next.segment_index,
            ids,
            now,
        )
    } else {
        &&& after.segments@ == segments.update(
            at,
            SegmentRow { status: SegmentStatus::Completed, finished_at: Some(now), ..last },
        ).push(next)
        &&& is_taking(after.events@.last(), turn_id, revision, last.segment_index, ids, now)
    }
    &&& after == (ConversationDb {
        prompts: after.prompts,
        events: after.events,
        segments: after.segments,
        ..before
    })
}

/// Whether the last segment of a generation has the highest index there is.
pub open spec fn journal_full(db: ConversationDb, turn_id: Seq<char>, revision: i64) -> bool {
    let at = last_segment(db.segments@, turn_id, revision, db.segments@.len() as int);
    at >= 0 && db.segments@[at].segment_index == i64::MAX
}

/// Whether a message waits in the queue, where there is a queue.
pub open spec fn any_waiting(db: ConversationDb, queue: Option<Seq<char>>) -> bool {
    queue is Some && waiting_ids(
        db.prompts@,
        queue->Some_0,
        db.prompts@.len() as int,
    ).len() > 0
}

/// Whether a message waits in a queue.
pub fn waits_any(prompts: &Vec<PromptRow>, queue: &str) -> (r: bool)
    ensures
        r == (waiting_ids(prompts@, queue@, prompts@.len() as int).len() > 0),
{
    let mut k: usize = 0;
    while k < prompts.len()
        invariant
            k <= prompts@.len(),
            forall|j: int| 0 <= j < k ==> !waits_in(#[trigger] prompts@[j], queue@),
        decreases prompts@.len() - k,
    {
        if is_waiting_in(&prompts[k], queue) {
            proof {
                lemma_waiting_ids(prompts@, queue@, prompts@.len() as int);
            }
            return true;
        }
        k += 1;
    }
    proof {
        lemma_waiting_ids(prompts@, queue@, prompts@.len() as int);
    }
    false
}

/// No message waits where there are no ids of those that do.
pub proof fn lemma_waiting_ids(prompts: Seq<PromptRow>, queue: Seq<char>, n: int)
    requires
        0 <= n <= prompts.len(),
    ensures
        waiting_ids(prompts, queue, n).len() == 0 <==> forall|k: int|
            0 <= k < n ==> !waits_in(#[trigger] prompts[k], queue),
    decreases n,
{
    if n > 0 {
        lemma_waiting_ids(prompts, queue, n - 1);
    }
}

/// Beginning segment 0 changes the last segment of a generation only where
/// there was none after it.
pub proof fn lemma_last_with_first(
    segments: Seq<SegmentRow>,
    turn_id: String,
    revision: i64,
    now: String,
)
    requires
        super::segments_ordered(segments),
    ensures
        ({
            let with = with_first(segments, turn_id, revision, now);
            let at = last_segment(with, turn_id@, revision, with.len() as int);
            let was = last_segment(segments, turn_id@, revision, segments.len() as int);
            &&& at >= 0
            &&& with[at].segment_index == i64::MAX ==> was >= 0 && segments[was].segment_index
                == i64::MAX
        }),
{
    let with = with_first(segments, turn_id, revision, now);
    let at = last_segment(with, turn_id@, revision, with.len() as int);
    let was = last_segment(segments, turn_id@, revision, segments.len() as int);
    lemma_last_segment(with, turn_id@, revision, with.len() as int);
    lemma_last_segment(segments, turn_id@, revision, segments.len() as int);
    if has_first(segments, turn_id@, revision) {
    } else {
        lemma_first_place(segments, turn_id@, revision, 0);
        let p = first_place(segments, turn_id@, revision, 0);
        assert(of_generation(with[p], turn_id@, revision));
        if at > p {
            assert(with[at] == segments[at - 1]);
            if was != at - 1 {
                assert(of_generation(segments[was], turn_id@, revision));
                assert(was > at - 1);
                assert(with[was + 1] == segments[was]);
            }
        }
    }
}

proof fn lemma_next_segment_ordered(
    segments: Seq<SegmentRow>,
    turn_id: Seq<char>,
    revision: i64,
    next: SegmentRow,
)
    requires
        super::segments_ordered(segments),
        of_generation(next, turn_id, revision),
        ({
            let at = last_segment(segments, turn_id, revision, segments.len() as int);
            at >= 0 ==> next.segment_index > segments[at].segment_index
        }),
    ensures
        super::segments_ordered(segments.push(next)),
{
    let at = last_segment(segments, turn_id, revision, segments.len() as int);
    lemma_last_segment(segments, turn_id, revision, segments.len() as int);
    let after = segments.push(next);
    assert forall|i: int, j: int|
        0 <= i < j < after.len() && #[trigger] after[i].turn_id@ == #[trigger] after[j].turn_id@
            && after[i].revision == after[j].revision implies after[i].segment_index
        < after[j].segment_index by {
        if j == segments.len() {
            assert(of_generation(segments[i], turn_id, revision));
            assert(i <= at);
            if i < at {
                assert(segments[i].turn_id@ == segments[at].turn_id@);
            }
        } else {
            assert(segments[i].turn_id@ == segments[j].turn_id@);
        }
    }
}

pub proof fn lemma_segment_updated(segments: Seq<SegmentRow>, at: int, segment: SegmentRow)
    requires
        super::segments_ordered(segments),
        0 <= at < segments.len(),
        segment.turn_id == segments[at].turn_id,
        segment.revision == segments[at].revision,
        segment.segment_index == segments[at].segment_index,
    ensures
        super::segments_ordered(segments.update(at, segment)),
{
    let after = segments.update(at, segment);
    assert forall|i: int, j: int|
        0 <= i < j < after.len() && #[trigger] after[i].turn_id@ == #[trigger] after[j].turn_id@
            && after[i].revision == after[j].revision implies after[i].segment_index
        < after[j].segment_index by {
        assert(segments[i].turn_id@ == segments[j].turn_id@);
    }
}

proof fn lemma_last_segment_updated(
    segments: Seq<SegmentRow>,
    turn_id: Seq<char>,
    revision: i64,
    at: int,
    segment: SegmentRow,
    n: int,
)
    requires
        0 <= n <= segments.len(),
        0 <= at < segments.len(),
        segment.turn_id == segments[at].turn_id,
        segment.revision == segments[at].revision,
    ensures
        last_segment(segments.update(at, segment), turn_id, revision, n) == last_segment(
            segments,
            turn_id,
            revision,
            n,
        ),
    decreases n,
{
    if n > 0 {
        lemma_last_segment_updated(segments, turn_id, revision, at, segment, n - 1);
    }
}

proof fn lemma_taken_ordered(
    before: Seq<PromptRow>,
    after: Seq<PromptRow>,
    queue: Seq<char>,
    turn_id: String,
    now: String,
    preceding: (Seq<char>, Option<Seq<char>>),
)
    requires
        super::prompts_ordered(before),
        all_taken(before, after, queue, turn_id, now, preceding, before.len() as int),
    ensures
        super::prompts_ordered(after),
{
    assert forall|i: int, j: int| 0 <= i < j < after.len() implies #[trigger] after[i].prompt_id@
        != #[trigger] after[j].prompt_id@ && after[i].seq < after[j].seq by {
        assert(before[i].prompt_id@ != before[j].prompt_id@);
        assert(waits_in(before[i], queue) || !waits_in(before[i], queue));
        assert(waits_in(before[j], queue) || !waits_in(before[j], queue));
    }
}

impl ConversationDb {
    /// Takes the messages that wait in the queue of a turn that died into that
    /// turn. Says how many there were.
    pub fn consume_stale_queued_prompts(
        &mut self,
        turn_id: &String,
        revision: i64,
        queue: Option<&String>,
        now: &String,
    ) -> (taken_in: Result<usize, DbError>)
        requires
            old(self).wf(),
        ensures
            final(self).wf(),
            match taken_in {
                Ok(n) => if any_waiting(
                    *old(self),
                    match queue {
                        Some(q) => Some(q@),
                        None => None,
                    },
                ) {
                    &&& !journal_full(*old(self), turn_id@, revision)
                    &&& n == waiting_ids(
                        old(self).prompts@,
                        queue->Some_0@,
                        old(self).prompts@.len() as int,
                    ).len()
                    &&& waiting_taken(
                        *old(self),
                        *final(self),
                        queue->Some_0@,
                        *turn_id,
                        revision,
                        *now,
                    )
                } else {
                    n == 0 && *final(self) == *old(self)
                },
                Err(e) => e == DbError::SequenceFull && any_waiting(
                    *old(self),
                    match queue {
                        Some(q) => Some(q@),
                        None => None,
                    },
                ) && journal_full(*old(self), turn_id@, revision) && *final(self) == *old(self),
            },
    {
        let queue = match queue {
            Some(queue) => queue.as_str(),
            None => return Ok(0),
        };
        if !waits_any(&self.prompts, queue) {
            return Ok(0);
        }
        if let Some(at) = find_last_segment(&self.segments, turn_id.as_str(), revision) {
            if self.segments[at].segment_index == i64::MAX {
                return Err(DbError::SequenceFull);
            }
        }
        let ghost before = *self;
        ensure_first(&mut self.segments, turn_id, revision, now);
        let ghost segments = self.segments@;
        proof {
            lemma_with_first_ordered(before.segments@, *turn_id, revision, *now);
            lemma_last_with_first(before.segments@, *turn_id, revision, *now);
            lemma_last_segment(segments, turn_id@, revision, segments.len() as int);
        }
        let at: usize = match find_last_segment(&self.segments, turn_id.as_str(), revision) {
            Some(at) => at,
            None => return Ok(0),
        };
        let status = self.segments[at].status;
        let index: i64 = self.segments[at].segment_index;
        let preceding = if status == SegmentStatus::Running {
            journal_segment_projection(&self.events, turn_id.as_str(), revision, index)
        } else {
            (String::new(), None)
        };
        let ids = take_waiting(&mut self.prompts, queue, turn_id, now, &preceding);
        proof {
            lemma_taken_ordered(
                before.prompts@,
                self.prompts@,
                queue@,
                *turn_id,
                *now,
                (preceding.0@, json::opt_text(preceding.1)),
            );
        }
        let taken_in: usize = ids.len();
        let payload = write_id_list(&ids);
        let next: i64 = index + 1;
        let superseded = status == SegmentStatus::Superseded;
        self.events.push(
            EventRow {
                turn_id: turn_id.clone(),
                revision,
                segment_index: if superseded {
                    next
                } else {
                    index
                },
                kind: "queued_prompts_consumed".to_owned(),
                call_id: None,
                name: None,
                text_payload: Some(payload),
                blob_payload: None,
                ok: None,
                created_at: now.clone(),
            },
        );
        assert(self.events@.drop_last() =~= before.events@);
        if !superseded {
            let row = &mut self.segments[at];
            row.status = SegmentStatus::Completed;
            row.finished_at = Some(now.clone());
            proof {
                assert(self.segments@ =~= segments.update(at as int, self.segments@[at as int]));
                lemma_segment_updated(segments, at as int, self.segments@[at as int]);
                lemma_last_segment_updated(
                    segments,
                    turn_id@,
                    revision,
                    at as int,
                    self.segments@[at as int],
                    segments.len() as int,
                );
            }
        }
        let ghost closed = self.segments@;
        let row = SegmentRow {
            turn_id: turn_id.clone(),
            revision,
            segment_index: next,
            status: SegmentStatus::Running,
            started_at: now.clone(),
            finished_at: None,
        };
        proof {
            lemma_next_segment_ordered(closed, turn_id@, revision, row);
        }
        self.segments.push(row);
        Ok(taken_in)
    }
}

} // verus!
