//! What the journal of a turn adds up to.

use vstd::prelude::*;

use crate::json;
use crate::text::{self, same_text, trimmed};

use super::rows::{EventRow, SegmentRow, SegmentStatus};

verus! {

/// What stands for an answer, or after it, when its turn was interrupted.
pub const INTERRUPTED_TEXT: &'static str = "已中断";

/// Whether an event belongs to a segment.
pub open spec fn in_segment(event: EventRow, turn_id: Seq<char>, revision: i64, segment: i64) -> bool {
    event.turn_id@ == turn_id && event.revision == revision && event.segment_index == segment
}

/// What the assistant said in a segment, as far as the first `n` events go.
pub open spec fn said(
    events: Seq<EventRow>,
    turn_id: Seq<char>,
    revision: i64,
    segment: i64,
    n: int,
) -> Seq<char>
    decreases n,
{
    if n <= 0 {
        Seq::empty()
    } else {
        let before = said(events, turn_id, revision, segment, n - 1);
        let event = events[n - 1];
        if in_segment(event, turn_id, revision, segment) && event.kind@ == "assistant_content"@
            && event.text_payload is Some {
            before + event.text_payload->Some_0@
        } else {
            before
        }
    }
}

/// What the assistant thought in a segment since it last started over, as far
/// as the first `n` events go.
pub open spec fn mused(
    events: Seq<EventRow>,
    turn_id: Seq<char>,
    revision: i64,
    segment: i64,
    n: int,
) -> Seq<char>
    decreases n,
{
    if n <= 0 {
        Seq::empty()
    } else {
        let before = mused(events, turn_id, revision, segment, n - 1);
        let event = events[n - 1];
        if !in_segment(event, turn_id, revision, segment) {
            before
        } else if event.kind@ == "assistant_reasoning"@ {
            match event.text_payload {
                Some(text) => before + text@,
                None => before,
            }
        } else if event.kind@ == "reasoning_reset"@ {
            Seq::empty()
        } else {
            before
        }
    }
}

/// A text, unless it is nothing but white space.
pub open spec fn worded(text: Seq<char>) -> Option<Seq<char>> {
    if text::trim(text).len() == 0 {
        None
    } else {
        Some(text)
    }
}

/// What was said and thought in a segment.
pub open spec fn segment_projection(
    events: Seq<EventRow>,
    turn_id: Seq<char>,
    revision: i64,
    segment: i64,
) -> (Seq<char>, Option<Seq<char>>) {
    let n = events.len() as int;
    (
        said(events, turn_id, revision, segment, n),
        worded(mused(events, turn_id, revision, segment, n)),
    )
}

proof fn lemma_kinds_differ()
    ensures
        "assistant_content"@ != "assistant_reasoning"@,
        "assistant_content"@ != "reasoning_reset"@,
        "assistant_reasoning"@ != "reasoning_reset"@,
{
    reveal_strlit("assistant_content");
    reveal_strlit("assistant_reasoning");
    reveal_strlit("reasoning_reset");
    assert("assistant_content"@.len() == 17);
    assert("assistant_reasoning"@.len() == 19);
    assert("reasoning_reset"@.len() == 15);
}

/// What was said and thought in a segment.
pub fn journal_segment_projection(
    events: &Vec<EventRow>,
    turn_id: &str,
    revision: i64,
    segment_index: i64,
) -> (r: (String, Option<String>))
    ensures
        (r.0@, json::opt_text(r.1)) == segment_projection(
            events@,
            turn_id@,
            revision,
            segment_index,
        ),
{
    let mut content = String::new();
    let mut reasoning = String::new();
    let mut i: usize = 0;
    proof {
        lemma_kinds_differ();
    }
    while i < events.len()
        invariant
            i <= events@.len(),
            content@ == said(events@, turn_id@, revision, segment_index, i as int),
            reasoning@ == mused(events@, turn_id@, revision, segment_index, i as int),
            "assistant_content"@ != "assistant_reasoning"@,
            "assistant_content"@ != "reasoning_reset"@,
            "assistant_reasoning"@ != "reasoning_reset"@,
        decreases events@.len() - i,
    {
        let event = &events[i];
        if event.revision == revision && event.segment_index == segment_index && same_text(
            event.turn_id.as_str(),
            turn_id,
        ) {
            let kind = event.kind.as_str();
            if same_text(kind, "assistant_content") {
                if let Some(text) = &event.text_payload {
                    content.append(text.as_str());
                }
            } else if same_text(kind, "assistant_reasoning") {
                if let Some(text) = &event.text_payload {
                    reasoning.append(text.as_str());
                }
            } else if same_text(kind, "reasoning_reset") {
                reasoning = String::new();
            }
        }
        i += 1;
    }
    if trimmed(reasoning.as_str()).as_str().is_empty() {
        (content, None)
    } else {
        (content, Some(reasoning))
    }
}

/// Whether a segment belongs to a generation and was not replaced.
pub open spec fn live_segment(segment: SegmentRow, turn_id: Seq<char>, revision: i64) -> bool {
    segment.turn_id@ == turn_id && segment.revision == revision && segment.status
        != SegmentStatus::Superseded
}

/// What was said in the live segments among the first `n`, an empty line
/// between two of them unless the first ends a line.
pub open spec fn told(
    segments: Seq<SegmentRow>,
    events: Seq<EventRow>,
    turn_id: Seq<char>,
    revision: i64,
    n: int,
) -> Seq<char>
    decreases n,
{
    if n <= 0 {
        Seq::empty()
    } else {
        let before = told(segments, events, turn_id, revision, n - 1);
        let segment = segments[n - 1];
        let piece = segment_projection(events, turn_id, revision, segment.segment_index).0;
        if !live_segment(segment, turn_id, revision) || text::trim(piece).len() == 0 {
            before
        } else if before.len() > 0 && before.last() != '\n' {
            before + "\n\n"@ + piece
        } else {
            before + piece
        }
    }
}

/// The last thought in the live segments among the first `n`.
pub open spec fn last_thought(
    segments: Seq<SegmentRow>,
    events: Seq<EventRow>,
    turn_id: Seq<char>,
    revision: i64,
    n: int,
) -> Option<Seq<char>>
    decreases n,
{
    if n <= 0 {
        None
    } else {
        let segment = segments[n - 1];
        let thought = segment_projection(events, turn_id, revision, segment.segment_index).1;
        if live_segment(segment, turn_id, revision) && thought is Some {
            thought
        } else {
            last_thought(segments, events, turn_id, revision, n - 1)
        }
    }
}

/// The answer and the thought of a generation that was interrupted: what was
/// said in every live segment, marked as interrupted, and the last thought.
pub open spec fn interrupted_answer(
    segments: Seq<SegmentRow>,
    events: Seq<EventRow>,
    turn_id: Seq<char>,
    revision: i64,
) -> (Seq<char>, Option<Seq<char>>) {
    let n = segments.len() as int;
    let content = told(segments, events, turn_id, revision, n);
    (
        if text::trim(content).len() == 0 {
            INTERRUPTED_TEXT@
        } else {
            content + "\n\n"@ + INTERRUPTED_TEXT@
        },
        last_thought(segments, events, turn_id, revision, n),
    )
}

/// The answer and the thought of a generation that was interrupted.
pub fn interrupted_projection(
    segments: &Vec<SegmentRow>,
    events: &Vec<EventRow>,
    turn_id: &str,
    revision: i64,
) -> (r: (String, Option<String>))
    ensures
        (r.0@, json::opt_text(r.1)) == interrupted_answer(segments@, events@, turn_id@, revision),
{
    let mut content = String::new();
    let mut ends_line = true;
    let mut reasoning: Option<String> = None;
    let mut i: usize = 0;
    while i < segments.len()
        invariant
            i <= segments@.len(),
            content@ == told(segments@, events@, turn_id@, revision, i as int),
            ends_line == (content@.len() == 0 || content@.last() == '\n'),
            json::opt_text(reasoning) == last_thought(
                segments@,
                events@,
                turn_id@,
                revision,
                i as int,
            ),
        decreases segments@.len() - i,
    {
        let segment = &segments[i];
        if segment.revision == revision && segment.status != SegmentStatus::Superseded && same_text(
            segment.turn_id.as_str(),
            turn_id,
        ) {
            let (piece, thought) = journal_segment_projection(
                events,
                turn_id,
                revision,
                segment.segment_index,
            );
            if !trimmed(piece.as_str()).as_str().is_empty() {
                if !ends_line {
                    content.append("\n\n");
                }
                content.append(piece.as_str());
                proof {
                    assert(text::trim(piece@).len() > 0);
                    if piece@.len() == 0 {
                        assert(text::trim_start(piece@) == piece@);
                    }
                    assert(content@.last() == piece@.last());
                }
                ends_line = ends_with_break(piece.as_str());
            }
            if thought.is_some() {
                reasoning = thought;
            }
        }
        i += 1;
    }
    if trimmed(content.as_str()).as_str().is_empty() {
        (INTERRUPTED_TEXT.to_owned(), reasoning)
    } else {
        content.append("\n\n");
        content.append(INTERRUPTED_TEXT);
        (content, reasoning)
    }
}

/// Whether `text` ends with a line break.
fn ends_with_break(text: &str) -> (r: bool)
    ensures
        r == (text@.len() > 0 && text@.last() == '\n'),
{
    let n: usize = text.unicode_len();
    n > 0 && text.get_char(n - 1) == '\n'
}

/// A thought is kept only where it says something, and a turn that said
/// nothing is answered by the mark alone.
pub proof fn silence_is_only_marked(
    segments: Seq<SegmentRow>,
    events: Seq<EventRow>,
    turn_id: Seq<char>,
    revision: i64,
)
    requires
        forall|i: int|
            0 <= i < segments.len() ==> !live_segment(#[trigger] segments[i], turn_id, revision),
    ensures
        interrupted_answer(segments, events, turn_id, revision) == (INTERRUPTED_TEXT@, None::<Seq<char>>),
{
    lemma_silence(segments, events, turn_id, revision, segments.len() as int);
}

proof fn lemma_silence(
    segments: Seq<SegmentRow>,
    events: Seq<EventRow>,
    turn_id: Seq<char>,
    revision: i64,
    n: int,
)
    requires
        0 <= n <= segments.len(),
        forall|i: int|
            0 <= i < segments.len() ==> !live_segment(#[trigger] segments[i], turn_id, revision),
    ensures
        told(segments, events, turn_id, revision, n).len() == 0,
        last_thought(segments, events, turn_id, revision, n) is None,
    decreases n,
{
    if n > 0 {
        lemma_silence(segments, events, turn_id, revision, n - 1);
    }
}

// ---------------------------------------------------------------------------
// Laws
// ---------------------------------------------------------------------------

/// How many characters the assistant streamed in a segment, as far as the first
/// `n` events go.
pub open spec fn streamed(
    events: Seq<EventRow>,
    turn_id: Seq<char>,
    revision: i64,
    segment: i64,
    n: int,
) -> nat
    decreases n,
{
    if n <= 0 {
        0
    } else {
        let event = events[n - 1];
        let before = streamed(events, turn_id, revision, segment, n - 1);
        match event.text_payload {
            Some(text) => if event.turn_id@ == turn_id && event.revision == revision
                && event.segment_index == segment && event.kind@ == "assistant_content"@ {
                before + text@.len()
            } else {
                before
            },
            None => before,
        }
    }
}

/// Everything that was streamed in a segment is said, in the order of the
/// events and with nothing between: a piece stands behind all that came before
/// it, and what is said is as long as the pieces together.
pub proof fn every_piece_is_said(
    events: &Vec<EventRow>,
    turn_id: &str,
    revision: i64,
    segment: i64,
    k: int,
    r: (String, Option<String>),
)
    requires
        call_ensures(journal_segment_projection, (events, turn_id, revision, segment), r),
        0 <= k < events@.len(),
    ensures
        r.0@.len() == streamed(events@, turn_id@, revision, segment, events@.len() as int),
        ({
            let event = events@[k];
            let at = streamed(events@, turn_id@, revision, segment, k) as int;
            event.turn_id@ == turn_id@ && event.revision == revision && event.segment_index
                == segment && event.kind@ == "assistant_content"@ && event.text_payload is Some
                ==> {
                let piece = event.text_payload->Some_0@;
                &&& at + piece.len() <= r.0@.len()
                &&& r.0@.subrange(at, at + piece.len()) == piece
            }
        }),
{
    lemma_said_grows(events@, turn_id@, revision, segment, k + 1, events@.len() as int);
    lemma_said_grows(events@, turn_id@, revision, segment, k, k + 1);
    let now = said(events@, turn_id@, revision, segment, k + 1);
    let at = streamed(events@, turn_id@, revision, segment, k) as int;
    let event = events@[k];
    if in_segment(event, turn_id@, revision, segment) && event.kind@ == "assistant_content"@
        && event.text_payload is Some {
        let piece = event.text_payload->Some_0@;
        assert(r.0@.take(now.len() as int) == now);
        assert(r.0@.subrange(at, at + piece.len()) =~= now.subrange(at, at + piece.len()));
        assert(now.subrange(at, at + piece.len()) =~= piece);
    }
}

/// What was said stays when more is.
proof fn lemma_said_grows(
    events: Seq<EventRow>,
    turn_id: Seq<char>,
    revision: i64,
    segment: i64,
    m: int,
    n: int,
)
    requires
        0 <= m <= n <= events.len(),
    ensures
        said(events, turn_id, revision, segment, m).len() == streamed(
            events,
            turn_id,
            revision,
            segment,
            m,
        ),
        said(events, turn_id, revision, segment, n).len() == streamed(
            events,
            turn_id,
            revision,
            segment,
            n,
        ),
        streamed(events, turn_id, revision, segment, m) <= streamed(
            events,
            turn_id,
            revision,
            segment,
            n,
        ),
        said(events, turn_id, revision, segment, n).take(
            said(events, turn_id, revision, segment, m).len() as int,
        ) == said(events, turn_id, revision, segment, m),
    decreases n,
{
    let a = said(events, turn_id, revision, segment, m);
    let b = said(events, turn_id, revision, segment, n);
    if n > m {
        lemma_said_grows(events, turn_id, revision, segment, m, n - 1);
        let c = said(events, turn_id, revision, segment, n - 1);
        assert(b.take(c.len() as int) =~= c);
        assert(b.take(a.len() as int) =~= c.take(a.len() as int));
    } else {
        if n > 0 {
            lemma_said_grows(events, turn_id, revision, segment, n - 1, n - 1);
        }
        assert(b.take(a.len() as int) =~= a);
    }
}

/// One event more adds its text to what was said, where the assistant said it
/// in the segment, and changes nothing of it otherwise. A thought grows in the
/// same way until the assistant starts over; one that is blank is none.
pub proof fn one_event_more(
    events: Seq<EventRow>,
    event: EventRow,
    turn_id: Seq<char>,
    revision: i64,
    segment: i64,
)
    ensures
        ({
            let before = segment_projection(events, turn_id, revision, segment);
            let after = segment_projection(events.push(event), turn_id, revision, segment);
            let own = event.turn_id@ == turn_id && event.revision == revision
                && event.segment_index == segment;
            &&& after.0 == match event.text_payload {
                Some(text) => if own && event.kind@ == "assistant_content"@ {
                    before.0 + text@
                } else {
                    before.0
                },
                None => before.0,
            }
            &&& own && event.kind@ == "reasoning_reset"@ ==> after.1 is None
            &&& own && event.kind@ == "assistant_reasoning"@ && event.text_payload is Some ==> {
                let text = event.text_payload->Some_0@;
                &&& before.1 matches Some(thought) ==> after.1 == Some(thought + text)
                &&& before.1 is None && text::trim(text).len() > 0 ==> after.1 is Some
                &&& after.1 matches Some(thought) ==> thought.len() >= text.len() && thought.skip(
                    thought.len() - text.len(),
                ) == text
                &&& before.1 is None && text::trim(text).len() == 0 ==> after.1 is None
            }
            &&& !own || (event.kind@ != "assistant_reasoning"@ && event.kind@
                != "reasoning_reset"@) || (event.kind@ == "assistant_reasoning"@
                && event.text_payload is None) ==> after.1 == before.1
        }),
{
    lemma_kinds_differ();
    let n = events.len() as int;
    let more = events.push(event);
    lemma_same_events(events, more, turn_id, revision, segment, n);
    assert(more[n] == event);
    let old_thought = mused(events, turn_id, revision, segment, n);
    text::blank_is_all_space(old_thought);
    text::blank_is_all_space(Seq::empty());
    if event.text_payload is Some {
        let text = event.text_payload->Some_0@;
        let grown = old_thought + text;
        text::blank_is_all_space(text);
        text::blank_is_all_space(grown);
        assert(grown.skip(grown.len() - text.len()) =~= text);
        if exists|i: int| 0 <= i < old_thought.len() && !text::is_space(#[trigger] old_thought[i]) {
            let i = choose|i: int|
                0 <= i < old_thought.len() && !text::is_space(#[trigger] old_thought[i]);
            assert(grown[i] == old_thought[i]);
        }
        if exists|i: int| 0 <= i < text.len() && !text::is_space(#[trigger] text[i]) {
            let i = choose|i: int| 0 <= i < text.len() && !text::is_space(#[trigger] text[i]);
            assert(grown[old_thought.len() + i] == text[i]);
        }
        assert forall|i: int| 0 <= i < grown.len() implies #[trigger] grown[i] == if i
            < old_thought.len() {
            old_thought[i]
        } else {
            text[i - old_thought.len()]
        } by {}
    }
}

proof fn lemma_same_events(
    events: Seq<EventRow>,
    more: Seq<EventRow>,
    turn_id: Seq<char>,
    revision: i64,
    segment: i64,
    n: int,
)
    requires
        0 <= n <= events.len() <= more.len(),
        forall|i: int| 0 <= i < n ==> #[trigger] more[i] == events[i],
    ensures
        said(more, turn_id, revision, segment, n) == said(events, turn_id, revision, segment, n),
        mused(more, turn_id, revision, segment, n) == mused(events, turn_id, revision, segment, n),
    decreases n,
{
    if n > 0 {
        lemma_same_events(events, more, turn_id, revision, segment, n - 1);
        assert(more[n - 1] == events[n - 1]);
    }
}

/// Without events nothing was said.
pub proof fn nothing_is_said_without_events(turn_id: Seq<char>, revision: i64, segment: i64)
    ensures
        segment_projection(Seq::empty(), turn_id, revision, segment) == (
            Seq::<char>::empty(),
            None::<Seq<char>>,
        ),
{
    text::blank_is_all_space(Seq::empty());
}

/// One segment more adds what was said in it to the answer, before the mark and
/// after an empty line unless a line ends there, and its thought takes the
/// place of the earlier one. A segment that was replaced, that belongs to
/// something else or in which nothing was said adds nothing.
pub proof fn one_segment_more(
    segments: Seq<SegmentRow>,
    segment: SegmentRow,
    events: Seq<EventRow>,
    turn_id: Seq<char>,
    revision: i64,
)
    ensures
        ({
            let before = interrupted_answer(segments, events, turn_id, revision);
            let after = interrupted_answer(segments.push(segment), events, turn_id, revision);
            let here = segment_projection(events, turn_id, revision, segment.segment_index);
            let own = segment.turn_id@ == turn_id && segment.revision == revision
                && segment.status != SegmentStatus::Superseded;
            let tail = "\n\n已中断"@;
            &&& before.0 == "已中断"@ || (before.0.len() > tail.len() && before.0.skip(
                before.0.len() - tail.len(),
            ) == tail)
            &&& own && text::trim(here.0).len() > 0 && before.0 == "已中断"@ ==> after.0 == here.0
                + tail
            &&& own && text::trim(here.0).len() > 0 && before.0 != "已中断"@ ==> {
                let told = before.0.take(before.0.len() - tail.len());
                after.0 == told + (if told.last() == '\n' {
                    Seq::empty()
                } else {
                    "\n\n"@
                }) + here.0 + tail
            }
            &&& !own || text::trim(here.0).len() == 0 ==> after.0 == before.0
            &&& after.1 == if own && here.1 is Some {
                here.1
            } else {
                before.1
            }
        }),
{
    let n = segments.len() as int;
    let more = segments.push(segment);
    lemma_same_segments(segments, more, events, turn_id, revision, n);
    lemma_told_words(segments, events, turn_id, revision, n);
    lemma_told_words(more, events, turn_id, revision, n + 1);
    assert(more[n] == segment);
    reveal_strlit("\n\n已中断");
    reveal_strlit("已中断");
    reveal_strlit("\n\n");
    let tail = "\n\n已中断"@;
    assert(tail =~= "\n\n"@ + "已中断"@);
    assert(tail.len() == 5 && "已中断"@.len() == 3);
    let content = told(segments, events, turn_id, revision, n);
    let grown = told(more, events, turn_id, revision, n + 1);
    assert(content + "\n\n"@ + "已中断"@ =~= content + tail);
    assert(grown + "\n\n"@ + "已中断"@ =~= grown + tail);
    assert((content + tail).skip(content.len() as int) =~= tail);
    assert((content + tail).take(content.len() as int) =~= content);
    let here = segment_projection(events, turn_id, revision, segment.segment_index);
    if content.len() == 0 {
        assert(content + here.0 =~= here.0);
    }
    assert(content + Seq::<char>::empty() + here.0 =~= content + here.0);
}

/// What is told is nothing at all, or says something.
proof fn lemma_told_words(
    segments: Seq<SegmentRow>,
    events: Seq<EventRow>,
    turn_id: Seq<char>,
    revision: i64,
    n: int,
)
    requires
        0 <= n <= segments.len(),
    ensures
        ({
            let content = told(segments, events, turn_id, revision, n);
            text::trim(content).len() == 0 <==> content.len() == 0
        }),
    decreases n,
{
    let content = told(segments, events, turn_id, revision, n);
    text::blank_is_all_space(content);
    if n > 0 {
        lemma_told_words(segments, events, turn_id, revision, n - 1);
        let segment = segments[n - 1];
        let piece = segment_projection(events, turn_id, revision, segment.segment_index).0;
        text::blank_is_all_space(piece);
        if live_segment(segment, turn_id, revision) && text::trim(piece).len() > 0 {
            let i = choose|i: int| 0 <= i < piece.len() && !text::is_space(#[trigger] piece[i]);
            assert(content[content.len() - piece.len() + i] == piece[i]);
        }
    }
}

proof fn lemma_same_segments(
    segments: Seq<SegmentRow>,
    more: Seq<SegmentRow>,
    events: Seq<EventRow>,
    turn_id: Seq<char>,
    revision: i64,
    n: int,
)
    requires
        0 <= n <= segments.len() <= more.len(),
        forall|i: int| 0 <= i < n ==> #[trigger] more[i] == segments[i],
    ensures
        told(more, events, turn_id, revision, n) == told(segments, events, turn_id, revision, n),
        last_thought(more, events, turn_id, revision, n) == last_thought(
            segments,
            events,
            turn_id,
            revision,
            n,
        ),
    decreases n,
{
    if n > 0 {
        lemma_same_segments(segments, more, events, turn_id, revision, n - 1);
        assert(more[n - 1] == segments[n - 1]);
    }
}

/// The answer of an interrupted generation holds all that was said in each of
/// its segments that was not replaced, in the order of the segments, and ends
/// with the mark.
pub proof fn every_segment_is_told(
    segments: Seq<SegmentRow>,
    events: Seq<EventRow>,
    turn_id: Seq<char>,
    revision: i64,
    i: int,
    j: int,
)
    requires
        0 <= i < j < segments.len(),
        segments[i].turn_id@ == turn_id && segments[i].revision == revision,
        segments[j].turn_id@ == turn_id && segments[j].revision == revision,
        segments[i].status != SegmentStatus::Superseded,
        segments[j].status != SegmentStatus::Superseded,
        text::trim(
            segment_projection(events, turn_id, revision, segments[i].segment_index).0,
        ).len() > 0,
        text::trim(
            segment_projection(events, turn_id, revision, segments[j].segment_index).0,
        ).len() > 0,
    ensures
        ({
            let answer = interrupted_answer(segments, events, turn_id, revision).0;
            let a = segment_projection(events, turn_id, revision, segments[i].segment_index).0;
            let b = segment_projection(events, turn_id, revision, segments[j].segment_index).0;
            exists|x: int, y: int|
                {
                    &&& 0 <= x && x + a.len() <= y && y + b.len() <= answer.len() - 5
                    &&& #[trigger] answer.subrange(x, x + a.len()) == a
                    &&& #[trigger] answer.subrange(y, y + b.len()) == b
                    &&& answer.skip(answer.len() - 5) == "\n\n已中断"@
                }
        }),
{
    let n = segments.len() as int;
    let answer = interrupted_answer(segments, events, turn_id, revision).0;
    let a = segment_projection(events, turn_id, revision, segments[i].segment_index).0;
    let b = segment_projection(events, turn_id, revision, segments[j].segment_index).0;
    lemma_told_grows(segments, events, turn_id, revision, i + 1, j);
    lemma_told_grows(segments, events, turn_id, revision, j, j + 1);
    lemma_told_grows(segments, events, turn_id, revision, j + 1, n);
    lemma_told_words(segments, events, turn_id, revision, n);
    let first = told(segments, events, turn_id, revision, i + 1);
    let middle = told(segments, events, turn_id, revision, j);
    let second = told(segments, events, turn_id, revision, j + 1);
    let all = told(segments, events, turn_id, revision, n);
    let x = first.len() - a.len();
    let y = second.len() - b.len();
    text::blank_is_all_space(a);
    text::blank_is_all_space(b);
    assert(first.skip(x) =~= a);
    assert(second.skip(y) =~= b);
    assert(first =~= all.take(first.len() as int)) by {
        assert(all.take(second.len() as int).take(middle.len() as int).take(first.len() as int)
            =~= all.take(first.len() as int));
    }
    reveal_strlit("\n\n已中断");
    reveal_strlit("已中断");
    reveal_strlit("\n\n");
    assert("\n\n已中断"@ =~= "\n\n"@ + "已中断"@);
    assert("\n\n已中断"@.len() == 5);
    assert(answer =~= all + "\n\n已中断"@);
    assert(answer.subrange(x, x + a.len()) =~= a) by {
        assert forall|k: int| 0 <= k < a.len() implies answer[x + k] == a[k] by {
            assert(first.skip(x)[k] == first[x + k]);
            assert(all.take(first.len() as int)[x + k] == all[x + k]);
        }
    }
    assert(answer.subrange(y, y + b.len()) =~= b) by {
        assert forall|k: int| 0 <= k < b.len() implies answer[y + k] == b[k] by {
            assert(second.skip(y)[k] == second[y + k]);
            assert(all.take(second.len() as int)[y + k] == all[y + k]);
        }
    }
    assert(answer.skip(answer.len() - 5) =~= "\n\n已中断"@);
}

/// What is told stays when more is.
proof fn lemma_told_grows(
    segments: Seq<SegmentRow>,
    events: Seq<EventRow>,
    turn_id: Seq<char>,
    revision: i64,
    m: int,
    n: int,
)
    requires
        0 <= m <= n <= segments.len(),
    ensures
        ({
            let a = told(segments, events, turn_id, revision, m);
            let b = told(segments, events, turn_id, revision, n);
            a.len() <= b.len() && b.take(a.len() as int) == a
        }),
    decreases n - m,
{
    let a = told(segments, events, turn_id, revision, m);
    let b = told(segments, events, turn_id, revision, n);
    if m < n {
        lemma_told_grows(segments, events, turn_id, revision, m, n - 1);
        let c = told(segments, events, turn_id, revision, n - 1);
        assert(b.take(c.len() as int) =~= c);
        assert(b.take(a.len() as int) =~= c.take(a.len() as int));
    } else {
        assert(b.take(a.len() as int) =~= a);
    }
}

} // verus!
