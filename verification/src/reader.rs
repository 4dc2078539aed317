//! Reading an input through cleaning and trimming: the reader's state and
//! its decisions; reading from the wrapped source is left to the caller.
use vstd::prelude::*;
use crate::clean::{EscState, feed_chunk};

verus! {

/// Size of the read buffer used when copying.
pub const BUFFER_SIZE: usize = 65536;

/// What became of a piece read from the source.
pub enum ReadOutcome {
    /// This many processed bytes were copied to the caller's buffer.
    Copied(usize),
    /// The piece gave nothing to hand out yet: read the source again.
    NeedMore,
    /// The source is exhausted and everything has been handed out.
    Finished,
}

/// Wraps a byte source (`inner`) so that what is read from it is cleaned
/// and/or trimmed as one whole input, however the source splits it into
/// pieces. Processed bytes that do not fit in the caller's buffer are kept
/// and handed out first by the next read.
pub struct ProcessingReader<R> {
    inner: R,
    clean: bool,
    trim: bool,
    esc: EscState,
    started: bool,
    held: Vec<u8>,
    ready: Vec<u8>,
    ready_pos: usize,
    finished: bool,
    input: Ghost<Seq<u8>>,
    handed: Ghost<Seq<u8>>,
}

impl<R> ProcessingReader<R> {
    /// The wrapped source.
    pub closed spec fn inner(&self) -> R {
        self.inner
    }

    pub closed spec fn clean(&self) -> bool {
        self.clean
    }

    pub closed spec fn trim(&self) -> bool {
        self.trim
    }

    /// Everything read from the source so far.
    pub closed spec fn input(&self) -> Seq<u8> {
        self.input@
    }

    /// Everything handed out so far.
    pub closed spec fn handed(&self) -> Seq<u8> {
        self.handed@
    }

    /// Processed bytes waiting to be handed out.
    pub closed spec fn pending(&self) -> Seq<u8> {
        self.ready@.skip(self.ready_pos as int)
    }

    /// Trailing whitespace read so far and held back: it is handed out only
    /// if something other than whitespace follows it in the input.
    pub closed spec fn held(&self) -> Seq<u8> {
        self.held@
    }

    /// Whether the end of the source has been reached.
    pub closed spec fn is_finished(&self) -> bool {
        self.finished
    }

    /// The processor's state matches the input read so far, and what was
    /// handed out plus what is pending is the processed input.
    pub closed spec fn wf(&self) -> bool {
        let (st, out) = crate::clean::feed(self.clean, self.trim, crate::clean::initial_stream(), self.input@);
        &&& self.ready_pos <= self.ready@.len()
        &&& !self.finished ==> self.esc == st.esc && self.started == st.started && self.held@ == st.held
        &&& self.handed@ + self.pending() == out
    }

    /// A reader over `inner` that cleans and/or trims as asked, with nothing
    /// read or pending.
    pub fn new(inner: R, clean: bool, trim: bool) -> (r: Self)
        ensures
            r.wf(),
            r.inner() == inner,
            r.clean() == clean,
            r.trim() == trim,
            r.input() == Seq::<u8>::empty(),
            r.handed() == Seq::<u8>::empty(),
            r.pending() == Seq::<u8>::empty(),
            r.held() == Seq::<u8>::empty(),
            !r.is_finished(),
    {
        let r = ProcessingReader {
            inner,
            clean,
            trim,
            esc: EscState::Ground,
            started: false,
            held: Vec::new(),
            ready: Vec::new(),
            ready_pos: 0,
            finished: false,
            input: Ghost(Seq::empty()),
            handed: Ghost(Seq::empty()),
        };
        assert(r.ready@.skip(0) =~= Seq::<u8>::empty());
        assert(r.handed@ + r.pending() =~= Seq::<u8>::empty());
        r
    }

    /// Whether the end of the source has been reached.
    pub fn finished(&self) -> (r: bool)
        ensures
            r == self.is_finished(),
    {
        self.finished
    }

    /// The source, to read the next piece from.
    pub fn inner_mut(&mut self) -> (r: &mut R)
        requires
            old(self).wf(),
        ensures
            *r == old(self).inner(),
            final(self).inner() == *final(r),
            final(self).wf(),
            final(self).clean() == old(self).clean(),
            final(self).trim() == old(self).trim(),
            final(self).input() == old(self).input(),
            final(self).handed() == old(self).handed(),
            final(self).pending() == old(self).pending(),
            final(self).held() == old(self).held(),
            final(self).is_finished() == old(self).is_finished(),
    {
        &mut self.inner
    }

    /// Hands out kept bytes first: where some are pending, copies as many as
    /// fit to the front of `buf`, drops them from the pending bytes and
    /// returns how many; with nothing pending, returns `None` and changes
    /// nothing.
    pub fn read_pending(&mut self, buf: &mut [u8]) -> (r: Option<usize>)
        requires
            old(self).wf(),
        ensures
            final(self).wf(),
            final(self).inner() == old(self).inner(),
            final(self).clean() == old(self).clean(),
            final(self).trim() == old(self).trim(),
            final(self).input() == old(self).input(),
            final(self).held() == old(self).held(),
            final(self).is_finished() == old(self).is_finished(),
            old(self).pending().len() == 0 ==> r is None && final(self).pending() == old(self).pending()
                && final(self).handed() == old(self).handed() && final(buf)@ == old(buf)@,
            old(self).pending().len() > 0 ==> ({
                let k = if old(self).pending().len() < old(buf)@.len() { old(self).pending().len() as int } else { old(buf)@.len() as int };
                &&& r == Some(k as usize)
                &&& final(buf)@ == old(self).pending().take(k) + old(buf)@.skip(k)
                &&& final(self).pending() == old(self).pending().skip(k)
                &&& final(self).handed() == old(self).handed() + old(self).pending().take(k)
            }),
    {
        let available = self.ready.len() - self.ready_pos;
        if available == 0 {
            return None;
        }
        let ghost p = self.pending();
        let to_copy = if available < buf.len() { available } else { buf.len() };
        copy_from(buf, self.ready.as_slice(), self.ready_pos, to_copy);
        assert(self.ready@.subrange(self.ready_pos as int, self.ready_pos + to_copy) =~= p.take(to_copy as int));
        self.handed = Ghost(self.handed@ + p.take(to_copy as int));
        self.ready_pos = self.ready_pos + to_copy;
        assert(self.pending() =~= p.skip(to_copy as int));
        if self.ready_pos == self.ready.len() {
            self.ready.clear();
            self.ready_pos = 0;
            assert(self.pending() =~= p.skip(to_copy as int));
        }
        assert(self.handed@ + self.pending() =~= old(self).handed@ + p);
        Some(to_copy)
    }

    /// Takes the next piece `chunk` read from the source (empty at its end)
    /// while nothing is pending. At the end, returns `Finished`: what is
    /// still held back is trailing whitespace and is dropped. Otherwise the
    /// piece is processed as a continuation of the input; where that gives
    /// nothing new, returns `NeedMore`; else copies as many new processed
    /// bytes as fit to the front of `buf`, keeps the rest pending and returns
    /// how many were copied. What is then pending, together with the
    /// whitespace still held back, is at most the whitespace held back before
    /// plus the length of `chunk`.
    #[verifier::rlimit(80)]
    pub fn process_read(&mut self, chunk: &[u8], buf: &mut [u8]) -> (r: ReadOutcome)
        requires
            old(self).wf(),
            old(self).pending().len() == 0,
            !old(self).is_finished(),
        ensures
            final(self).wf(),
            final(self).inner() == old(self).inner(),
            final(self).clean() == old(self).clean(),
            final(self).trim() == old(self).trim(),
            final(self).pending().len() + final(self).held().len() <= old(self).held().len() + chunk@.len(),
            chunk@.len() == 0 ==> {
                &&& r is Finished
                &&& final(self).is_finished()
                &&& final(self).input() == old(self).input()
                &&& final(self).handed() == old(self).handed()
                &&& final(self).pending().len() == 0
                &&& final(self).held().len() == 0
                &&& final(buf)@ == old(buf)@
            },
            chunk@.len() > 0 ==> {
                let input = old(self).input() + chunk@;
                let fresh = crate::clean::processed(input, old(self).clean(), old(self).trim()).skip(old(self).handed().len() as int);
                let k = if fresh.len() < old(buf)@.len() { fresh.len() as int } else { old(buf)@.len() as int };
                &&& !final(self).is_finished()
                &&& final(self).input() == input
                &&& fresh.len() == 0 ==> r is NeedMore && final(self).handed() == old(self).handed()
                        && final(self).pending().len() == 0 && final(buf)@ == old(buf)@
                &&& fresh.len() > 0 ==> r == ReadOutcome::Copied(k as usize)
                        && final(buf)@ == fresh.take(k) + old(buf)@.skip(k)
                        && final(self).pending() == fresh.skip(k)
                        && final(self).handed() == old(self).handed() + fresh.take(k)
            },
    {
        let ghost st0 = crate::clean::feed(self.clean, self.trim, crate::clean::initial_stream(), self.input@);
        assert(self.handed@ + self.pending() == st0.1);
        assert(self.handed@ =~= st0.1);
        if chunk.len() == 0 {
            self.finished = true;
            self.held.clear();
            return ReadOutcome::Finished;
        }
        let ghost st_before = crate::clean::StreamState { esc: self.esc, started: self.started, held: self.held@ };
        proof {
            crate::clean::lemma_feed_len_bound(self.clean, self.trim, st_before, chunk@);
        }
        self.ready.clear();
        self.ready_pos = 0;
        feed_chunk(self.clean, self.trim, &mut self.esc, &mut self.started, &mut self.held, chunk, &mut self.ready);
        proof {
            crate::clean::lemma_feed_append(self.clean, self.trim, crate::clean::initial_stream(), old(self).input@, chunk@);
        }
        self.input = Ghost(self.input@ + chunk@);
        let ghost fresh = self.ready@;
        assert(crate::clean::processed(self.input@, self.clean, self.trim) =~= st0.1 + fresh);
        assert((st0.1 + fresh).skip(st0.1.len() as int) =~= fresh);
        if self.ready.len() == 0 {
            assert(self.handed@ + self.pending() =~= st0.1 + fresh);
            return ReadOutcome::NeedMore;
        }
        let to_copy = if self.ready.len() < buf.len() { self.ready.len() } else { buf.len() };
        copy_from(buf, self.ready.as_slice(), 0, to_copy);
        assert(self.ready@.subrange(0, to_copy as int) =~= fresh.take(to_copy as int));
        self.handed = Ghost(self.handed@ + fresh.take(to_copy as int));
        self.ready_pos = to_copy;
        assert(self.pending() =~= fresh.skip(to_copy as int));
        assert(self.handed@ + self.pending() =~= st0.1 + fresh);
        ReadOutcome::Copied(to_copy)
    }
}

/// The reader hands out the whole input processed as one: what it has handed
/// out, followed by what is pending, is always the processed input read so
/// far; once the source is exhausted and nothing is pending, what was handed
/// out is exactly the processed input.
pub proof fn lemma_reader_hands_out_processed_input<R>(r: &ProcessingReader<R>)
    requires
        r.wf(),
    ensures
        r.handed() + r.pending() == crate::clean::processed(r.input(), r.clean(), r.trim()),
        r.is_finished() && r.pending().len() == 0 ==> r.handed() == crate::clean::processed(r.input(), r.clean(), r.trim()),
{
    if r.pending().len() == 0 {
        assert(r.handed() + r.pending() =~= r.handed());
    }
}

/// Copies `count` bytes of `src`, starting at `from`, to the front of `dst`.
fn copy_from(dst: &mut [u8], src: &[u8], from: usize, count: usize)
    requires
        from + count <= src@.len(),
        count <= old(dst)@.len(),
    ensures
        final(dst)@ == src@.subrange(from as int, from + count) + old(dst)@.skip(count as int),
{
    let ghost start = dst@;
    let mut i: usize = 0;
    while i < count
        invariant
            i <= count,
            from + count <= src@.len(),
            from + count <= src.len(),
            count <= start.len(),
            dst@.len() == start.len(),
            forall|k: int| 0 <= k < i ==> dst@[k] == src@[from + k],
            forall|k: int| i <= k < start.len() ==> dst@[k] == start[k],
        decreases count - i,
    {
        dst[i] = src[from + i];
        i += 1;
    }
    assert(dst@ =~= src@.subrange(from as int, from + count) + start.skip(count as int));
}

/// The next step of copying a source to a destination after a read that
/// brought `count` bytes into the copy buffer.
pub enum CopyStep {
    /// Write the first `count` bytes of the copy buffer, then read again.
    Write(usize),
    /// The source is exhausted: the copy is complete.
    Finish,
}

/// Decides how copying goes on after a read that brought `count` bytes: a
/// read of 0 bytes ends the copy, any other count is written out before the
/// next read.
pub fn copy_stream(count: usize) -> (step: CopyStep)
    ensures
        count == 0 ==> step == CopyStep::Finish,
        count > 0 ==> step == CopyStep::Write(count),
{
    if count == 0 {
        CopyStep::Finish
    } else {
        CopyStep::Write(count)
    }
}

} // verus!
