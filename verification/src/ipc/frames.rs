//! Receiving frames, with a look at those that have arrived.
//!
//! A frame is four bytes of length, the most significant first, and as many
//! bytes of body. Bytes are fed in as they arrive. Frames are taken out one by
//! one, and those that have arrived can be looked at before they are taken,
//! each once.

use vstd::prelude::*;

verus! {

/// The length of a frame's header.
pub const HEADER_BYTES: usize = 4;

/// Bytes that were taken are dropped once there are this many and they make up
/// half of the buffer, so that not every frame moves the rest.
pub const COMPACT_AFTER_BYTES: usize = 65_536;

/// Why no frame can be taken.
#[derive(Debug, Clone, Copy, PartialEq, Eq, Structural)]
pub enum FrameError {
    /// The length of a frame is zero or too large.
    InvalidLength(u32),
    /// The stream was closed in the middle of a frame.
    ClosedInFrame,
}

/// What stands at the beginning of some bytes.
pub enum FrameView {
    /// A header that is none.
    Invalid(u32),
    /// Not all of a frame has arrived.
    Partial,
    /// A frame, whose body ends here.
    Whole(int),
}

/// The number that four bytes are, the most significant first.
pub open spec fn be32(bytes: Seq<u8>) -> int {
    0x100_0000 * bytes[0] + 0x1_0000 * bytes[1] + 0x100 * bytes[2] + bytes[3]
}

/// What stands at the beginning of `bytes`, where a body is at most `limit`
/// long.
pub open spec fn first_frame(bytes: Seq<u8>, limit: int) -> FrameView {
    if bytes.len() < HEADER_BYTES {
        FrameView::Partial
    } else {
        let length = be32(bytes);
        if length == 0 || length > limit {
            FrameView::Invalid(length as u32)
        } else if bytes.len() < HEADER_BYTES + length {
            FrameView::Partial
        } else {
            FrameView::Whole(HEADER_BYTES + length)
        }
    }
}

/// What stands at `at` in a buffer.
enum FrameAt {
    Invalid(u32),
    Partial,
    Whole(usize),
}

/// What stands at `at` in a buffer.
fn frame_at(buffer: &Vec<u8>, at: usize, limit: usize) -> (found: FrameAt)
    requires
        at <= buffer@.len(),
    ensures
        match (found, first_frame(buffer@.skip(at as int), limit as int)) {
            (FrameAt::Invalid(a), FrameView::Invalid(b)) => a == b,
            (FrameAt::Partial, FrameView::Partial) => true,
            (FrameAt::Whole(end), FrameView::Whole(n)) => at + HEADER_BYTES < end <= buffer.len()
                && end == at + n,
            _ => false,
        },
{
    if buffer.len() - at < HEADER_BYTES {
        return FrameAt::Partial;
    }
    let ghost rest = buffer@.skip(at as int);
    let a: u32 = buffer[at] as u32;
    let b: u32 = buffer[at + 1] as u32;
    let c: u32 = buffer[at + 2] as u32;
    let d: u32 = buffer[at + 3] as u32;
    let length: u32 = 0x100_0000 * a + 0x1_0000 * b + 0x100 * c + d;
    assert(length == be32(rest));
    if length == 0 || length as u64 > limit as u64 {
        return FrameAt::Invalid(length);
    }
    let body: usize = at + HEADER_BYTES;
    if ((buffer.len() - body) as u64) < length as u64 {
        return FrameAt::Partial;
    }
    FrameAt::Whole(body + length as usize)
}

/// The bytes that have arrived.
#[derive(Debug)]
pub struct FrameReader {
    /// How long a body is at most.
    pub limit: usize,
    pub buffer: Vec<u8>,
    /// How much of the buffer was taken.
    pub consumed: usize,
    /// How much of the buffer was looked at.
    pub scanned: usize,
    /// Whether nothing more will arrive.
    pub eof: bool,
}

/// What a look at a frame gave.
pub open spec fn frame_of(frame: Result<Option<Vec<u8>>, FrameError>) -> Result<
    Option<Seq<u8>>,
    FrameError,
> {
    match frame {
        Ok(Some(body)) => Ok(Some(body@)),
        Ok(None) => Ok(None),
        Err(e) => Err(e),
    }
}

/// What a [`ReceiveStep`] holds.
pub enum StepView {
    Frame(Seq<u8>),
    End,
    Read,
}

/// What an attempt to receive a frame gave.
pub open spec fn step_of(step: Result<ReceiveStep, FrameError>) -> Result<StepView, FrameError> {
    match step {
        Ok(ReceiveStep::Frame(body)) => Ok(StepView::Frame(body@)),
        Ok(ReceiveStep::End) => Ok(StepView::End),
        Ok(ReceiveStep::Read) => Ok(StepView::Read),
        Err(e) => Err(e),
    }
}

/// Whether `after` is `before` once `bytes` have arrived.
pub open spec fn fed(before: FrameReader, after: FrameReader, bytes: Seq<u8>) -> bool {
    &&& after.wf()
    &&& after.rest() == before.rest() + bytes
    &&& after.seen() == before.seen()
    &&& after.eof == before.eof
    &&& after.limit == before.limit
}

/// Whether `after` is `before` after an attempt to receive a frame: the
/// first that was not taken is, if it has arrived.
pub open spec fn received(
    before: FrameReader,
    after: FrameReader,
    step: Result<StepView, FrameError>,
) -> bool {
    &&& after.wf()
    &&& after.eof == before.eof
    &&& after.limit == before.limit
    &&& match (step, first_frame(before.rest(), before.limit as int)) {
        (Err(FrameError::InvalidLength(a)), FrameView::Invalid(b)) => a == b && after == before,
        (Ok(StepView::Frame(body)), FrameView::Whole(end)) => {
            &&& body == before.rest().subrange(HEADER_BYTES as int, end)
            &&& after.rest() == before.rest().skip(end)
            &&& after.unseen() == if before.seen() >= end {
                before.unseen()
            } else {
                before.rest().skip(end)
            }
        },
        (Ok(StepView::Read), FrameView::Partial) => !before.eof && after == before,
        (Ok(StepView::End), FrameView::Partial) => before.eof && before.rest().len() == 0
            && after == before,
        (Err(FrameError::ClosedInFrame), FrameView::Partial) => before.eof && before.rest().len()
            > 0 && after == before,
        _ => false,
    }
}

/// Whether `after` is `before` once the first frame that was not looked at
/// was, if it has arrived.
pub open spec fn looked(
    before: FrameReader,
    after: FrameReader,
    frame: Result<Option<Seq<u8>>, FrameError>,
) -> bool {
    &&& after.wf()
    &&& after.eof == before.eof
    &&& after.limit == before.limit
    &&& after.rest() == before.rest()
    &&& match (frame, first_frame(before.unseen(), before.limit as int)) {
        (Err(e), FrameView::Invalid(length)) => e == FrameError::InvalidLength(length) && after
            == before,
        (Ok(None), FrameView::Partial) => after == before,
        (Ok(Some(body)), FrameView::Whole(end)) => {
            &&& body == before.unseen().subrange(HEADER_BYTES as int, end)
            &&& after.unseen() == before.unseen().skip(end)
            &&& after.seen() == before.seen() + end
        },
        _ => false,
    }
}

/// What is to be done to receive a frame.
#[derive(Debug)]
pub enum ReceiveStep {
    /// This is the frame.
    Frame(Vec<u8>),
    /// The stream has ended.
    End,
    /// More bytes have to arrive.
    Read,
}

impl FrameReader {
    pub open spec fn wf(&self) -> bool {
        self.consumed <= self.buffer@.len() && self.scanned <= self.buffer@.len()
    }

    /// What has arrived and was not taken.
    pub open spec fn rest(&self) -> Seq<u8> {
        self.buffer@.skip(self.consumed as int)
    }

    /// How much of what was not taken was looked at.
    pub open spec fn seen(&self) -> int {
        if self.scanned > self.consumed {
            self.scanned - self.consumed
        } else {
            0
        }
    }

    /// What has arrived and was neither taken nor looked at.
    pub open spec fn unseen(&self) -> Seq<u8> {
        self.rest().skip(self.seen())
    }

    /// Whether the bytes that were taken are to be dropped: nothing else is in
    /// the buffer, or there are many of them and they make up half of it.
    pub open spec fn is_compactable(&self) -> bool {
        ||| self.consumed == self.buffer@.len()
        ||| self.consumed >= COMPACT_AFTER_BYTES && 2 * self.consumed >= self.buffer@.len()
    }

    /// Before anything has arrived. A body is at most `limit` long.
    pub fn new(limit: usize) -> (reader: Self)
        ensures
            reader.wf(),
            reader.limit == limit,
            reader.rest().len() == 0,
            reader.seen() == 0,
            !reader.eof,
    {
        FrameReader { limit, buffer: Vec::new(), consumed: 0, scanned: 0, eof: false }
    }

    /// Takes in bytes that have arrived.
    pub fn feed(&mut self, bytes: &Vec<u8>)
        requires
            old(self).wf(),
        ensures
            fed(*old(self), *final(self), bytes@),
    {
        self.compact();
        let ghost before = self.buffer@;
        let ghost rest = self.rest();
        let mut i: usize = 0;
        while i < bytes.len()
            invariant
                i <= bytes@.len(),
                self.buffer@ =~= before + bytes@.take(i as int),
                self.consumed <= before.len(),
                self.scanned <= before.len(),
                rest == before.skip(self.consumed as int),
                rest == old(self).rest(),
                self.seen() == old(self).seen(),
                self.eof == old(self).eof,
                self.limit == old(self).limit,
            decreases bytes@.len() - i,
        {
            self.buffer.push(bytes[i]);
            i += 1;
        }
        assert(self.rest() =~= rest + bytes@);
    }

    /// Notes that nothing more will arrive.
    pub fn close(&mut self)
        ensures
            *final(self) == (FrameReader { eof: true, ..*old(self) }),
    {
        self.eof = true;
    }

    /// Takes the next frame, if it has arrived.
    pub fn take_frame(&mut self) -> (frame: Result<Option<Vec<u8>>, FrameError>)
        requires
            old(self).wf(),
        ensures
            final(self).wf(),
            final(self).eof == old(self).eof,
            final(self).limit == old(self).limit,
            match (frame, first_frame(old(self).rest(), old(self).limit as int)) {
                (Err(e), FrameView::Invalid(length)) => e == FrameError::InvalidLength(length)
                    && *final(self) == *old(self),
                (Ok(None), FrameView::Partial) => *final(self) == *old(self),
                (Ok(Some(body)), FrameView::Whole(end)) => body@ == old(self).rest().subrange(
                    HEADER_BYTES as int,
                    end,
                ) && final(self).rest() == old(self).rest().skip(end) && final(self).unseen() == (
                if old(self).seen() >= end {
                    old(self).unseen()
                } else {
                    old(self).rest().skip(end)
                }),
                _ => false,
            },
    {
        let ghost rest = self.rest();
        match frame_at(&self.buffer, self.consumed, self.limit) {
            FrameAt::Invalid(length) => Err(FrameError::InvalidLength(length)),
            FrameAt::Partial => Ok(None),
            FrameAt::Whole(end) => {
                let body = part(&self.buffer, self.consumed + HEADER_BYTES, end);
                let ghost start = self.consumed as int;
                self.consumed = end;
                proof {
                    assert(body@ =~= rest.subrange(HEADER_BYTES as int, end - start));
                    assert(self.rest() =~= rest.skip(end - start));
                    if old(self).seen() >= end - start {
                        assert(self.unseen() =~= old(self).unseen());
                    } else {
                        assert(self.unseen() =~= rest.skip(end - start));
                    }
                }
                Ok(Some(body))
            },
        }
    }

    /// What is to be done to receive the next frame.
    pub fn receive(&mut self) -> (step: Result<ReceiveStep, FrameError>)
        requires
            old(self).wf(),
        ensures
            received(*old(self), *final(self), step_of(step)),
    {
        match self.take_frame() {
            Err(e) => Err(e),
            Ok(Some(frame)) => Ok(ReceiveStep::Frame(frame)),
            Ok(None) => {
                if !self.eof {
                    Ok(ReceiveStep::Read)
                } else if self.consumed == self.buffer.len() {
                    Ok(ReceiveStep::End)
                } else {
                    Err(FrameError::ClosedInFrame)
                }
            },
        }
    }

    /// Looks at the next frame that has arrived and was not looked at. It is
    /// not taken.
    pub fn next_unseen(&mut self) -> (frame: Result<Option<Vec<u8>>, FrameError>)
        requires
            old(self).wf(),
        ensures
            looked(*old(self), *final(self), frame_of(frame)),
    {
        let cursor: usize = if self.scanned > self.consumed {
            self.scanned
        } else {
            self.consumed
        };
        let ghost unseen = self.unseen();
        proof {
            assert(unseen =~= self.buffer@.skip(cursor as int));
        }
        match frame_at(&self.buffer, cursor, self.limit) {
            FrameAt::Invalid(length) => Err(FrameError::InvalidLength(length)),
            FrameAt::Partial => Ok(None),
            FrameAt::Whole(end) => {
                let body = part(&self.buffer, cursor + HEADER_BYTES, end);
                self.scanned = end;
                proof {
                    assert(body@ =~= unseen.subrange(HEADER_BYTES as int, end - cursor));
                    assert(self.unseen() =~= unseen.skip(end - cursor));
                }
                Ok(Some(body))
            },
        }
    }

    /// Drops the bytes that were taken, where there is nothing else or there
    /// are many of them. What was not taken stays, looked at as far as before.
    fn compact(&mut self)
        requires
            old(self).wf(),
        ensures
            final(self).wf(),
            final(self).rest() == old(self).rest(),
            final(self).seen() == old(self).seen(),
            final(self).eof == old(self).eof,
            final(self).limit == old(self).limit,
            if old(self).is_compactable() {
                &&& final(self).buffer@ == old(self).rest()
                &&& final(self).consumed == 0
                &&& final(self).scanned == old(self).seen()
            } else {
                *final(self) == *old(self)
            },
    {
        let ghost rest = self.rest();
        if self.consumed == self.buffer.len() {
            self.buffer = Vec::new();
        } else if self.consumed >= COMPACT_AFTER_BYTES && self.consumed >= self.buffer.len()
            - self.consumed {
            self.buffer = part(&self.buffer, self.consumed, self.buffer.len());
        } else {
            return ;
        }
        self.scanned = if self.scanned > self.consumed {
            self.scanned - self.consumed
        } else {
            0
        };
        self.consumed = 0;
        proof {
            assert(self.buffer@ =~= rest);
            assert(self.rest() =~= rest);
        }
    }
}

/// Some of the bytes.
fn part(bytes: &Vec<u8>, start: usize, end: usize) -> (out: Vec<u8>)
    requires
        start <= end <= bytes@.len(),
    ensures
        out@ == bytes@.subrange(start as int, end as int),
{
    let mut out: Vec<u8> = Vec::new();
    let mut i: usize = start;
    while i < end
        invariant
            start <= i <= end <= bytes@.len(),
            out@ =~= bytes@.subrange(start as int, i as int),
        decreases end - i,
    {
        out.push(bytes[i]);
        i += 1;
    }
    out
}

// ---------------------------------------------------------------------------
// Laws
// ---------------------------------------------------------------------------

/// A frame with this body: its length in four bytes, and the body.
pub open spec fn framed(body: Seq<u8>) -> Seq<u8> {
    let n = body.len() as int;
    seq![
        (n / 0x100_0000) as u8,
        ((n / 0x1_0000) % 0x100) as u8,
        ((n / 0x100) % 0x100) as u8,
        (n % 0x100) as u8,
    ] + body
}

/// A frame that was sent is the frame that is received, whatever follows it.
pub proof fn frames_round_trip(body: Seq<u8>, more: Seq<u8>, limit: int)
    requires
        0 < body.len() <= limit,
        body.len() < 0x1_0000_0000,
    ensures
        first_frame(framed(body) + more, limit) == FrameView::Whole(
            (HEADER_BYTES + body.len()) as int,
        ),
        (framed(body) + more).subrange(
            HEADER_BYTES as int,
            (HEADER_BYTES + body.len()) as int,
        ) == body,
        (framed(body) + more).skip((HEADER_BYTES + body.len()) as int) == more,
{
    let bytes = framed(body) + more;
    let n = body.len() as int;
    assert(bytes[0] == framed(body)[0] && bytes[1] == framed(body)[1] && bytes[2] == framed(
        body,
    )[2] && bytes[3] == framed(body)[3]);
    assert(n == 0x100_0000 * (n / 0x100_0000) + 0x1_0000 * ((n / 0x1_0000) % 0x100) + 0x100 * ((n
        / 0x100) % 0x100) + n % 0x100);
    assert(0 <= n / 0x100_0000 < 0x100);
    assert(be32(bytes) == n);
    assert(bytes.subrange(HEADER_BYTES as int, HEADER_BYTES + n) =~= body);
    assert(bytes.skip(HEADER_BYTES + n) =~= more);
}

/// A frame of which not all has arrived is neither lost nor seen: it is there
/// once the rest arrives, wherever it was cut.
pub proof fn half_a_frame_waits(body: Seq<u8>, cut: int, limit: int)
    requires
        0 < body.len() <= limit,
        body.len() < 0x1_0000_0000,
        0 <= cut < framed(body).len(),
    ensures
        first_frame(framed(body).take(cut), limit) == FrameView::Partial,
        framed(body).take(cut) + framed(body).skip(cut) == framed(body),
{
    let whole = framed(body);
    assert(whole.take(cut) + whole.skip(cut) =~= whole);
    if cut >= HEADER_BYTES {
        frames_round_trip(body, Seq::empty(), limit);
        assert(whole + Seq::<u8>::empty() =~= whole);
        assert(whole.take(cut)[0] == whole[0] && whole.take(cut)[1] == whole[1] && whole.take(
            cut,
        )[2] == whole[2] && whole.take(cut)[3] == whole[3]);
        assert(be32(whole.take(cut)) == be32(whole));
    }
}

/// How many bytes the first `n` frames of `bytes` are, if so many have arrived.
pub open spec fn first_frames(bytes: Seq<u8>, limit: int, n: nat) -> Option<int>
    decreases n,
{
    if n == 0 {
        Some(0)
    } else {
        match first_frames(bytes, limit, (n - 1) as nat) {
            Some(at) => match first_frame(bytes.skip(at), limit) {
                FrameView::Whole(end) => Some(at + end),
                _ => None,
            },
            None => None,
        }
    }
}

/// The body of frame `n` of `bytes`, counted from zero.
pub open spec fn frame_body(bytes: Seq<u8>, limit: int, n: nat) -> Seq<u8> {
    bytes.subrange(
        first_frames(bytes, limit, n)->0 + HEADER_BYTES,
        first_frames(bytes, limit, n + 1)->0,
    )
}

/// Whether frame `n` of `bytes` has arrived and its body is `body`.
pub open spec fn is_frame(bytes: Seq<u8>, limit: int, n: nat, body: Seq<u8>) -> bool {
    first_frames(bytes, limit, n + 1) is Some && frame_body(bytes, limit, n) == body
}

/// What is done with a reader.
pub enum Act {
    /// Bytes arrive.
    Arrived(Seq<u8>),
    /// Nothing more will arrive.
    Closed,
    /// A frame is looked at.
    Looked(Result<Option<Seq<u8>>, FrameError>),
    /// A frame is to be received.
    Received(Result<StepView, FrameError>),
}

/// Whether `after` is `before` once something was done.
pub open spec fn acted(before: FrameReader, after: FrameReader, act: Act) -> bool {
    match act {
        Act::Arrived(bytes) => fed(before, after, bytes),
        Act::Closed => after == (FrameReader { eof: true, ..before }),
        Act::Looked(frame) => looked(before, after, frame),
        Act::Received(step) => received(before, after, step),
    }
}

/// Whether `readers` is what a new reader becomes, act by act.
pub open spec fn is_run(limit: int, readers: Seq<FrameReader>, acts: Seq<Act>) -> bool {
    &&& readers.len() == acts.len() + 1
    &&& readers[0].wf()
    &&& readers[0].limit == limit
    &&& readers[0].rest().len() == 0
    &&& forall|i: int|
        0 <= i < acts.len() ==> acted(readers[i], readers[i + 1], #[trigger] acts[i])
}

/// All that has arrived.
pub open spec fn arrived(acts: Seq<Act>) -> Seq<u8>
    decreases acts.len(),
{
    if acts.len() == 0 {
        Seq::empty()
    } else {
        match acts.last() {
            Act::Arrived(bytes) => arrived(acts.drop_last()) + bytes,
            _ => arrived(acts.drop_last()),
        }
    }
}

/// How many frames were received.
pub open spec fn taken(acts: Seq<Act>) -> nat
    decreases acts.len(),
{
    if acts.len() == 0 {
        0
    } else {
        match acts.last() {
            Act::Received(Ok(StepView::Frame(_))) => taken(acts.drop_last()) + 1,
            _ => taken(acts.drop_last()),
        }
    }
}

/// How many frames will not be looked at any more: each up to the last that was
/// looked at or received.
pub open spec fn passed(acts: Seq<Act>) -> nat
    decreases acts.len(),
{
    if acts.len() == 0 {
        0
    } else {
        let before = passed(acts.drop_last());
        match acts.last() {
            Act::Looked(Ok(Some(_))) => before + 1,
            Act::Received(Ok(StepView::Frame(_))) => if before > taken(acts.drop_last()) {
                before
            } else {
                taken(acts.drop_last()) + 1
            },
            _ => before,
        }
    }
}

/// Whether a reader is at frame `t` of the bytes that have arrived, and has
/// looked at those before frame `s`.
pub open spec fn stands(reader: FrameReader, bytes: Seq<u8>, t: nat, s: nat) -> bool {
    &&& reader.wf()
    &&& t <= s
    &&& first_frames(bytes, reader.limit as int, t) matches Some(at) && reader.rest()
        == bytes.skip(at)
    &&& first_frames(bytes, reader.limit as int, s) matches Some(at) && reader.unseen()
        == bytes.skip(at)
}

/// Whatever was done, a reader is at the frame after those that were received,
/// and looks next at the frame after those that were looked at or received.
pub proof fn a_reader_keeps_its_place(limit: int, readers: Seq<FrameReader>, acts: Seq<Act>)
    requires
        is_run(limit, readers, acts),
    ensures
        readers.last().limit == limit,
        stands(readers.last(), arrived(acts), taken(acts), passed(acts)),
    decreases acts.len(),
{
    if acts.len() == 0 {
        let reader = readers[0];
        assert(reader.rest() =~= Seq::<u8>::empty().skip(0));
        assert(reader.unseen() =~= Seq::<u8>::empty().skip(0));
    } else {
        let before = readers.drop_last();
        let done = acts.drop_last();
        assert forall|i: int| 0 <= i < done.len() implies acted(
            before[i],
            before[i + 1],
            #[trigger] done[i],
        ) by {
            assert(done[i] == acts[i]);
        }
        a_reader_keeps_its_place(limit, before, done);
        let last = acts[acts.len() - 1];
        assert(acted(readers[acts.len() - 1], readers[acts.len() as int], last));
        lemma_step(before.last(), readers.last(), last, arrived(done), taken(done), passed(done));
    }
}

/// Each frame is looked at once at most, in the order in which they arrived,
/// and not after it was received: what act `i` showed is the first frame that
/// was neither shown nor received before, and it is not shown again.
pub proof fn each_frame_is_shown_once(
    limit: int,
    readers: Seq<FrameReader>,
    acts: Seq<Act>,
    i: int,
    j: int,
)
    requires
        is_run(limit, readers, acts),
        0 <= i < j < acts.len(),
    ensures
        acts[i] matches Act::Looked(Ok(Some(body))) ==> is_frame(
            arrived(acts),
            limit,
            passed(acts.take(i)),
            body,
        ),
        acts[i] matches Act::Looked(Ok(Some(_))) ==> passed(acts.take(i)) < passed(acts.take(j)),
        acts[i] matches Act::Received(Ok(StepView::Frame(_))) ==> taken(acts.take(i)) < passed(
            acts.take(j),
        ),
{
    lemma_shown(limit, readers, acts, i);
    lemma_counts(acts, i, j);
}

/// The frames are received in the order in which they arrived, each once,
/// whether or not they were looked at: what act `i` gave is the frame after
/// those that were received before.
pub proof fn each_frame_is_received_once(
    limit: int,
    readers: Seq<FrameReader>,
    acts: Seq<Act>,
    i: int,
)
    requires
        is_run(limit, readers, acts),
        0 <= i < acts.len(),
    ensures
        acts[i] matches Act::Received(Ok(StepView::Frame(body))) ==> is_frame(
            arrived(acts),
            limit,
            taken(acts.take(i)),
            body,
        ) && taken(acts.take(i + 1)) == taken(acts.take(i)) + 1,
{
    let done = acts.take(i);
    lemma_run_part(limit, readers, acts, i);
    a_reader_keeps_its_place(limit, readers.take(i + 1), done);
    lemma_arrived(acts, i);
    assert(acts.take(i + 1).drop_last() =~= done);
    assert(acted(readers[i], readers[i + 1], acts[i]));
    if let Act::Received(Ok(StepView::Frame(body))) = acts[i] {
        lemma_next(arrived(done), arrived(acts), limit, taken(done), body);
    }
}

/// A frame that has arrived whole is shown by the next look where those before
/// it were shown or received, though only part of it had arrived before.
pub proof fn a_whole_frame_is_shown(
    limit: int,
    readers: Seq<FrameReader>,
    acts: Seq<Act>,
    i: int,
)
    requires
        is_run(limit, readers, acts),
        0 <= i < acts.len(),
        acts[i] is Looked,
        first_frames(arrived(acts.take(i)), limit, passed(acts.take(i)) + 1) is Some,
    ensures
        acts[i] matches Act::Looked(Ok(Some(body))) && is_frame(
            arrived(acts),
            limit,
            passed(acts.take(i)),
            body,
        ),
{
    let done = acts.take(i);
    lemma_run_part(limit, readers, acts, i);
    a_reader_keeps_its_place(limit, readers.take(i + 1), done);
    assert(acted(readers[i], readers[i + 1], acts[i]));
    lemma_shown(limit, readers, acts, i);
}

/// What a look showed.
proof fn lemma_shown(limit: int, readers: Seq<FrameReader>, acts: Seq<Act>, i: int)
    requires
        is_run(limit, readers, acts),
        0 <= i < acts.len(),
    ensures
        acts[i] matches Act::Looked(Ok(Some(body))) ==> is_frame(
            arrived(acts),
            limit,
            passed(acts.take(i)),
            body,
        ),
{
    let done = acts.take(i);
    lemma_run_part(limit, readers, acts, i);
    a_reader_keeps_its_place(limit, readers.take(i + 1), done);
    lemma_arrived(acts, i);
    assert(acted(readers[i], readers[i + 1], acts[i]));
    if let Act::Looked(Ok(Some(body))) = acts[i] {
        lemma_next(arrived(done), arrived(acts), limit, passed(done), body);
    }
}

/// The beginning of a run is a run.
proof fn lemma_run_part(limit: int, readers: Seq<FrameReader>, acts: Seq<Act>, i: int)
    requires
        is_run(limit, readers, acts),
        0 <= i <= acts.len(),
    ensures
        is_run(limit, readers.take(i + 1), acts.take(i)),
        readers.take(i + 1).last() == readers[i],
{
    let before = readers.take(i + 1);
    let done = acts.take(i);
    assert forall|k: int| 0 <= k < done.len() implies acted(
        before[k],
        before[k + 1],
        #[trigger] done[k],
    ) by {
        assert(done[k] == acts[k]);
    }
}

/// What has arrived is the beginning of what arrives in all.
proof fn lemma_arrived(acts: Seq<Act>, i: int)
    requires
        0 <= i <= acts.len(),
    ensures
        exists|more: Seq<u8>| arrived(acts) == #[trigger] (arrived(acts.take(i)) + more),
    decreases acts.len() - i,
{
    if i == acts.len() {
        assert(acts.take(i) =~= acts);
        assert(arrived(acts) =~= arrived(acts.take(i)) + Seq::<u8>::empty());
    } else {
        lemma_arrived(acts, i + 1);
        let more = choose|more: Seq<u8>|
            arrived(acts) == #[trigger] (arrived(acts.take(i + 1)) + more);
        assert(acts.take(i + 1).drop_last() =~= acts.take(i));
        match acts[i] {
            Act::Arrived(bytes) => {
                assert(arrived(acts) =~= arrived(acts.take(i)) + (bytes + more));
            },
            _ => {},
        }
    }
}

/// The counts only grow, and grow where a frame is shown or received.
proof fn lemma_counts(acts: Seq<Act>, i: int, j: int)
    requires
        0 <= i < j <= acts.len(),
    ensures
        acts[i] matches Act::Looked(Ok(Some(_))) ==> passed(acts.take(i)) < passed(acts.take(j)),
        acts[i] matches Act::Received(Ok(StepView::Frame(_))) ==> taken(acts.take(i)) < passed(
            acts.take(j),
        ),
    decreases j,
{
    assert(acts.take(j).drop_last() =~= acts.take(j - 1));
    assert(acts.take(j).last() == acts[j - 1]);
    if i + 1 < j {
        lemma_counts(acts, i, j - 1);
    }
}

/// The frame that stands after the first `n`.
proof fn lemma_next(bytes: Seq<u8>, all: Seq<u8>, limit: int, n: nat, body: Seq<u8>)
    requires
        exists|more: Seq<u8>| all == #[trigger] (bytes + more),
        first_frames(bytes, limit, n) matches Some(at) && first_frame(
            bytes.skip(at),
            limit,
        ) matches FrameView::Whole(end) && body == bytes.skip(at).subrange(
            HEADER_BYTES as int,
            end,
        ),
    ensures
        is_frame(all, limit, n, body),
{
    let more = choose|more: Seq<u8>| all == #[trigger] (bytes + more);
    let at = first_frames(bytes, limit, n)->0;
    lemma_frames_stay(bytes, more, limit, n);
    lemma_frames_stay(bytes, more, limit, n + 1);
    assert(all.subrange(at + HEADER_BYTES, first_frames(bytes, limit, n + 1)->0) =~= body);
}

/// Frames that have arrived stay where they are when more arrives.
proof fn lemma_frames_stay(bytes: Seq<u8>, more: Seq<u8>, limit: int, n: nat)
    requires
        first_frames(bytes, limit, n) is Some,
    ensures
        0 <= first_frames(bytes, limit, n)->0 <= bytes.len(),
        first_frames(bytes + more, limit, n) == first_frames(bytes, limit, n),
    decreases n,
{
    if n > 0 {
        lemma_frames_stay(bytes, more, limit, (n - 1) as nat);
        let at = first_frames(bytes, limit, (n - 1) as nat)->0;
        let rest = bytes.skip(at);
        assert((bytes + more).skip(at) =~= rest + more);
        assert((rest + more)[0] == rest[0] && (rest + more)[1] == rest[1] && (rest + more)[2]
            == rest[2] && (rest + more)[3] == rest[3]);
    }
}

/// A frame that comes later is further on.
proof fn lemma_frames_go_on(bytes: Seq<u8>, limit: int, m: nat, n: nat)
    requires
        m < n,
        first_frames(bytes, limit, n) is Some,
    ensures
        first_frames(bytes, limit, m + 1) is Some,
        first_frames(bytes, limit, m + 1)->0 <= first_frames(bytes, limit, n)->0,
    decreases n - m,
{
    if m + 1 < n {
        lemma_frames_go_on(bytes, limit, m, (n - 1) as nat);
    }
}

/// One act.
proof fn lemma_step(
    before: FrameReader,
    after: FrameReader,
    act: Act,
    bytes: Seq<u8>,
    t: nat,
    s: nat,
)
    requires
        stands(before, bytes, t, s),
        acted(before, after, act),
    ensures
        after.limit == before.limit,
        match act {
            Act::Arrived(more) => stands(after, bytes + more, t, s),
            Act::Looked(Ok(Some(_))) => stands(after, bytes, t, s + 1),
            Act::Received(Ok(StepView::Frame(_))) => stands(
                after,
                bytes,
                t + 1,
                if s > t {
                    s
                } else {
                    t + 1
                },
            ),
            _ => stands(after, bytes, t, s),
        },
{
    let limit = before.limit as int;
    let from = first_frames(bytes, limit, t)->0;
    let to = first_frames(bytes, limit, s)->0;
    lemma_frames_stay(bytes, Seq::empty(), limit, t);
    lemma_frames_stay(bytes, Seq::empty(), limit, s);
    if t < s {
        lemma_frames_go_on(bytes, limit, t, s);
    }
    assert(before.seen() == to - from) by {
        assert(before.unseen().len() == before.rest().len() - before.seen());
    }
    match act {
        Act::Arrived(more) => {
            lemma_frames_stay(bytes, more, limit, t);
            lemma_frames_stay(bytes, more, limit, s);
            assert(after.rest() =~= (bytes + more).skip(from));
            assert(after.unseen() =~= (bytes + more).skip(to));
        },
        Act::Closed => {
            assert(after.rest() == before.rest());
            assert(after.unseen() == before.unseen());
        },
        Act::Looked(Ok(Some(_))) => {
            let end = first_frame(before.unseen(), limit)->Whole_0;
            assert(after.unseen() =~= bytes.skip(to + end));
        },
        Act::Received(Ok(StepView::Frame(_))) => {
            let end = first_frame(before.rest(), limit)->Whole_0;
            assert(first_frames(bytes, limit, t + 1) == Some(from + end));
            assert(after.rest() =~= bytes.skip(from + end));
        },
        _ => {},
    }
}

/// A length of zero or beyond the limit is refused, with the length, and
/// nothing is taken. Where not all of a frame has arrived more is to be read;
/// once nothing more will arrive it is the end where nothing is left, and an
/// error where something is.
pub proof fn only_sound_frames_are_received(
    before: FrameReader,
    after: FrameReader,
    step: Result<StepView, FrameError>,
    length: int,
)
    requires
        received(before, after, step),
        before.rest().len() >= 4 ==> length == 16_777_216 * before.rest()[0] + 65_536
            * before.rest()[1] + 256 * before.rest()[2] + before.rest()[3],
    ensures
        before.rest().len() >= 4 && (length == 0 || length > before.limit) ==> step == Err::<
            StepView,
            FrameError,
        >(FrameError::InvalidLength(length as u32)) && after == before,
        before.rest().len() >= 4 && 0 < length <= before.limit && before.rest().len() >= 4 + length
            ==> step == Ok::<StepView, FrameError>(
            StepView::Frame(before.rest().subrange(4, 4 + length)),
        ) && after.rest() == before.rest().skip(4 + length),
        before.rest().len() < 4 || 0 < length <= before.limit && before.rest().len() < 4 + length
            ==> after == before && if !before.eof {
            step == Ok::<StepView, FrameError>(StepView::Read)
        } else if before.rest().len() == 0 {
            step == Ok::<StepView, FrameError>(StepView::End)
        } else {
            step == Err::<StepView, FrameError>(FrameError::ClosedInFrame)
        },
{
}

/// Bytes that arrive are put behind those that are there. What was looked at
/// stays looked at.
pub proof fn bytes_arrive_at_the_end(before: FrameReader, after: FrameReader, bytes: Seq<u8>)
    requires
        fed(before, after, bytes),
    ensures
        after.rest() == before.rest() + bytes,
        after.seen() == before.seen(),
        after.eof == before.eof,
        after.limit == before.limit,
{
}

/// Looking at a frame takes nothing away: the frame is given once, and what
/// arrived stays to be received.
pub proof fn looking_takes_nothing(
    before: FrameReader,
    after: FrameReader,
    frame: Result<Option<Seq<u8>>, FrameError>,
    length: int,
)
    requires
        looked(before, after, frame),
        before.unseen().len() >= 4 ==> length == 16_777_216 * before.unseen()[0] + 65_536
            * before.unseen()[1] + 256 * before.unseen()[2] + before.unseen()[3],
    ensures
        after.rest() == before.rest(),
        before.unseen().len() >= 4 && 0 < length <= before.limit && before.unseen().len() >= 4
            + length ==> frame == Ok::<Option<Seq<u8>>, FrameError>(
            Some(before.unseen().subrange(4, 4 + length)),
        ) && after.unseen() == before.unseen().skip(4 + length) && after.seen() == before.seen() + 4
            + length,
        before.unseen().len() >= 4 && (length == 0 || length > before.limit) ==> frame == Err::<
            Option<Seq<u8>>,
            FrameError,
        >(FrameError::InvalidLength(length as u32)) && after == before,
        before.unseen().len() < 4 || 0 < length <= before.limit && before.unseen().len() < 4
            + length ==> frame == Ok::<Option<Seq<u8>>, FrameError>(None) && after == before,
{
}

} // verus!
