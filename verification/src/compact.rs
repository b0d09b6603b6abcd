//! A stream behind the usual interface of asynchronous readers and writers.
//!
//! Each poll is a few decisions: which future to start or to poll, and what its outcome means.

use vstd::prelude::*;

use crate::error::Error;

verus! {

/// The most slices that one poll reads.
pub const MAX_READ_SLICES_PER_POLL: usize = 64;

/// What the reader is at.
#[derive(Clone, Copy, Debug, PartialEq, Eq, Structural)]
pub enum ReadState {
    Idle,
    /// It waits for something to read.
    Reading,
    /// The stream is at its end.
    Eof,
}

/// What the writer is at.
#[derive(Clone, Copy, Debug, PartialEq, Eq, Structural)]
pub enum WriteState {
    Idle,
    Flushing,
    Closing,
}

/// What a poll of the reader does next.
#[derive(Debug)]
pub enum ReadAction {
    /// Begin to wait for something to read, and poll that.
    StartWait,
    /// Poll what was begun.
    PollWait,
    /// Read what is there, at most [`MAX_READ_SLICES_PER_POLL`] slices.
    Read,
    Pending,
    /// The poll is done. At the end of the stream nothing was read.
    Ready,
    Fail(Error),
}

/// What is polled for.
#[derive(Clone, Copy, Debug, PartialEq, Eq, Structural)]
pub enum WriteCall {
    Write,
    Flush,
    Shutdown,
}

/// Why a poll of the writer fails.
#[derive(Debug)]
pub enum WriteError {
    Stream(Error),
    ClosingDuringWrite,
    ClosingDuringFlush,
}

/// What a poll of the writer does next.
#[derive(Debug)]
pub enum WriteAction {
    /// Write the bytes to the stream; that is the outcome.
    Write,
    /// Begin to flush, and poll that.
    StartFlush,
    /// Begin to close, and poll that.
    StartClose,
    PollFlush,
    PollClose,
    Pending,
    Ready,
    Fail(WriteError),
}

/// A stream, or a handle to one, behind the usual interface of asynchronous readers and writers.
pub struct StreamExt<S> {
    pub inner: S,
    pub read_state: ReadState,
    pub write_state: WriteState,
}

impl<S> StreamExt<S> {
    pub fn new(inner: S) -> (r: Self)
        ensures
            r == (StreamExt { inner, read_state: ReadState::Idle, write_state: WriteState::Idle }),
    {
        StreamExt { inner, read_state: ReadState::Idle, write_state: WriteState::Idle }
    }

    pub fn inner(&self) -> (r: &S)
        ensures
            *r == self.inner,
    {
        &self.inner
    }

    /// Gives the stream out, cancels a read and forgets that the stream was at its end: the
    /// caller may put another one in its place.
    pub fn inner_mut(&mut self) -> (r: &mut S)
        ensures
            *r == old(self).inner,
            *final(self) == (StreamExt {
                inner: *final(r),
                read_state: ReadState::Idle,
                ..*old(self)
            }),
    {
        self.read_state = ReadState::Idle;
        &mut self.inner
    }

    pub fn into_inner(self) -> (r: S)
        ensures
            r == self.inner,
    {
        self.inner
    }

    /// Begins a poll of the reader that has room for `remaining` bytes.
    pub fn poll_read(&mut self, remaining: usize) -> (r: ReadAction)
        ensures
            (*final(self), r) == if remaining == 0 || old(self).read_state == ReadState::Eof {
                (*old(self), ReadAction::Ready)
            } else if old(self).read_state == ReadState::Idle {
                (
                    StreamExt { read_state: ReadState::Reading, ..*old(self) },
                    ReadAction::StartWait,
                )
            } else {
                (*old(self), ReadAction::PollWait)
            },
    {
        if remaining == 0 {
            return ReadAction::Ready;
        }
        match self.read_state {
            ReadState::Idle => {
                self.read_state = ReadState::Reading;
                ReadAction::StartWait
            },
            ReadState::Reading => ReadAction::PollWait,
            ReadState::Eof => ReadAction::Ready,
        }
    }

    /// Goes on after the wait was polled; `None` where it is not over.
    pub fn on_wait(&mut self, waited: Option<Result<(), Error>>) -> (r: ReadAction)
        requires
            old(self).read_state == ReadState::Reading,
        ensures
            (*final(self), r) == match waited {
                None => (*old(self), ReadAction::Pending),
                Some(Ok(_)) => (*old(self), ReadAction::Read),
                Some(Err(Error::EndOfStream)) => (
                    StreamExt { read_state: ReadState::Eof, ..*old(self) },
                    ReadAction::Ready,
                ),
                Some(Err(e)) => (
                    StreamExt { read_state: ReadState::Idle, ..*old(self) },
                    ReadAction::Fail(e),
                ),
            },
    {
        match waited {
            None => ReadAction::Pending,
            Some(Ok(_)) => ReadAction::Read,
            Some(Err(e)) => self.read_failed(e),
        }
    }

    /// Goes on after what was there was read. Another handle may have taken it in the meantime:
    /// the reader waits again, so that nobody takes that for the end of the stream.
    pub fn on_read(&mut self, read: Result<usize, Error>) -> (r: ReadAction)
        requires
            old(self).read_state == ReadState::Reading,
        ensures
            (*final(self), r) == match read {
                Ok(_) => (
                    StreamExt { read_state: ReadState::Idle, ..*old(self) },
                    ReadAction::Ready,
                ),
                Err(Error::NotEnoughData) => (*old(self), ReadAction::StartWait),
                Err(Error::EndOfStream) => (
                    StreamExt { read_state: ReadState::Eof, ..*old(self) },
                    ReadAction::Ready,
                ),
                Err(e) => (
                    StreamExt { read_state: ReadState::Idle, ..*old(self) },
                    ReadAction::Fail(e),
                ),
            },
    {
        match read {
            Ok(_) => {
                self.read_state = ReadState::Idle;
                ReadAction::Ready
            },
            Err(Error::NotEnoughData) => ReadAction::StartWait,
            Err(e) => self.read_failed(e),
        }
    }

    fn read_failed(&mut self, e: Error) -> (r: ReadAction)
        ensures
            (*final(self), r) == match e {
                Error::EndOfStream => (
                    StreamExt { read_state: ReadState::Eof, ..*old(self) },
                    ReadAction::Ready,
                ),
                _ => (
                    StreamExt { read_state: ReadState::Idle, ..*old(self) },
                    ReadAction::Fail(e),
                ),
            },
    {
        match e {
            Error::EndOfStream => {
                self.read_state = ReadState::Eof;
                ReadAction::Ready
            },
            e => {
                self.read_state = ReadState::Idle;
                ReadAction::Fail(e)
            },
        }
    }

    /// The first action of a poll of the writer, and of one that goes on.
    pub open spec fn begin(self, call: WriteCall) -> (Self, WriteAction) {
        match (self.write_state, call) {
            (WriteState::Idle, WriteCall::Write) => (self, WriteAction::Write),
            (WriteState::Idle, WriteCall::Flush) => (
                StreamExt { write_state: WriteState::Flushing, ..self },
                WriteAction::StartFlush,
            ),
            (WriteState::Idle, WriteCall::Shutdown) => (
                StreamExt { write_state: WriteState::Closing, ..self },
                WriteAction::StartClose,
            ),
            (WriteState::Flushing, _) => (self, WriteAction::PollFlush),
            (WriteState::Closing, WriteCall::Write) => (
                self,
                WriteAction::Fail(WriteError::ClosingDuringWrite),
            ),
            (WriteState::Closing, WriteCall::Flush) => (
                self,
                WriteAction::Fail(WriteError::ClosingDuringFlush),
            ),
            (WriteState::Closing, WriteCall::Shutdown) => (self, WriteAction::PollClose),
        }
    }

    fn poll(&mut self, call: WriteCall) -> (r: WriteAction)
        ensures
            (*final(self), r) == old(self).begin(call),
    {
        match self.write_state {
            WriteState::Idle => match call {
                WriteCall::Write => WriteAction::Write,
                WriteCall::Flush => {
                    self.write_state = WriteState::Flushing;
                    WriteAction::StartFlush
                },
                WriteCall::Shutdown => {
                    self.write_state = WriteState::Closing;
                    WriteAction::StartClose
                },
            },
            WriteState::Flushing => WriteAction::PollFlush,
            WriteState::Closing => match call {
                WriteCall::Write => WriteAction::Fail(WriteError::ClosingDuringWrite),
                WriteCall::Flush => WriteAction::Fail(WriteError::ClosingDuringFlush),
                WriteCall::Shutdown => WriteAction::PollClose,
            },
        }
    }

    /// Begins a poll that writes `len` bytes. Nothing at all is always written.
    pub fn poll_write(&mut self, len: usize) -> (r: WriteAction)
        ensures
            (*final(self), r) == if len == 0 {
                (*old(self), WriteAction::Ready)
            } else {
                old(self).begin(WriteCall::Write)
            },
    {
        if len == 0 {
            return WriteAction::Ready;
        }
        self.poll(WriteCall::Write)
    }

    /// Begins a poll that flushes.
    pub fn poll_flush(&mut self) -> (r: WriteAction)
        ensures
            (*final(self), r) == old(self).begin(WriteCall::Flush),
    {
        self.poll(WriteCall::Flush)
    }

    /// Begins a poll that closes.
    pub fn poll_shutdown(&mut self) -> (r: WriteAction)
        ensures
            (*final(self), r) == old(self).begin(WriteCall::Shutdown),
    {
        self.poll(WriteCall::Shutdown)
    }

    /// Goes on after the flush was polled; `None` where it is not over. A poll that flushes takes
    /// a closed stream for a flushed one; the others go on with what they are for.
    pub fn on_flush(&mut self, call: WriteCall, flushed: Option<Result<(), Error>>) -> (r:
        WriteAction)
        requires
            old(self).write_state == WriteState::Flushing,
        ensures
            ({
                let idle = StreamExt { write_state: WriteState::Idle, ..*old(self) };
                (*final(self), r) == match flushed {
                    None => (*old(self), WriteAction::Pending),
                    Some(Ok(_)) => if call == WriteCall::Flush {
                        (idle, WriteAction::Ready)
                    } else {
                        idle.begin(call)
                    },
                    Some(Err(e)) => if call == WriteCall::Flush && e is StreamClosed {
                        (idle, WriteAction::Ready)
                    } else {
                        (idle, WriteAction::Fail(WriteError::Stream(e)))
                    },
                }
            }),
    {
        match flushed {
            None => WriteAction::Pending,
            Some(result) => {
                self.write_state = WriteState::Idle;
                match (call, result) {
                    (WriteCall::Flush, Ok(_)) => WriteAction::Ready,
                    (WriteCall::Flush, Err(Error::StreamClosed)) => WriteAction::Ready,
                    (_, Ok(_)) => self.poll(call),
                    (_, Err(e)) => WriteAction::Fail(WriteError::Stream(e)),
                }
            },
        }
    }

    /// Goes on after the close was polled; `None` where it is not over.
    pub fn on_close(&mut self, closed: Option<Result<(), Error>>) -> (r: WriteAction)
        requires
            old(self).write_state == WriteState::Closing,
        ensures
            ({
                let idle = StreamExt { write_state: WriteState::Idle, ..*old(self) };
                (*final(self), r) == match closed {
                    None => (*old(self), WriteAction::Pending),
                    Some(Ok(_)) => (idle, WriteAction::Ready),
                    Some(Err(e)) => (idle, WriteAction::Fail(WriteError::Stream(e))),
                }
            }),
    {
        match closed {
            None => WriteAction::Pending,
            Some(result) => {
                self.write_state = WriteState::Idle;
                match result {
                    Ok(_) => WriteAction::Ready,
                    Err(e) => WriteAction::Fail(WriteError::Stream(e)),
                }
            },
        }
    }
}

/// A reader that is not at its end and has room waits for something to read before it reads. At the
/// end it stays at the end, and without room it does nothing.
pub proof fn law_reader_waits_before_it_reads<S>(
    a: &mut StreamExt<S>,
    remaining: usize,
    r: ReadAction,
)
    requires
        call_ensures(StreamExt::<S>::poll_read, (a, remaining), r),
    ensures
        remaining == 0 || old(a).read_state == ReadState::Eof <==> r is Ready,
        remaining > 0 && old(a).read_state == ReadState::Idle ==> r is StartWait
            && final(a).read_state == ReadState::Reading,
        remaining > 0 && old(a).read_state == ReadState::Reading ==> r is PollWait
            && final(a).read_state == ReadState::Reading,
        r is Ready ==> *final(a) == *old(a),
        final(a).inner == old(a).inner,
        final(a).write_state == old(a).write_state,
{
}

/// Once the wait is over the reader reads; what it read ends the poll, and where somebody else took
/// it the reader waits again and does not report the end. Only the end of the stream is the end,
/// and every other failure is reported and leaves the reader ready for another poll.
pub proof fn law_reader_reports_the_end_only_there<S>(
    a: &mut StreamExt<S>,
    waited: Option<Result<(), Error>>,
    r: ReadAction,
    b: &mut StreamExt<S>,
    read: Result<usize, Error>,
    q: ReadAction,
)
    requires
        old(a).read_state == ReadState::Reading,
        call_ensures(StreamExt::<S>::on_wait, (a, waited), r),
        old(b).read_state == ReadState::Reading,
        call_ensures(StreamExt::<S>::on_read, (b, read), q),
    ensures
        waited is None <==> r is Pending,
        waited matches Some(Ok(_)) <==> r is Read,
        final(a).read_state == ReadState::Eof <==> waited == Some(
            Err::<(), Error>(Error::EndOfStream),
        ),
        r is Ready <==> final(a).read_state == ReadState::Eof,
        waited matches Some(Err(e)) ==> (!(e is EndOfStream) ==> r == ReadAction::Fail(e)
            && final(a).read_state == ReadState::Idle),
        r is Pending || r is Read ==> final(a).read_state == ReadState::Reading,
        final(b).read_state == ReadState::Eof <==> read == Err::<usize, Error>(
            Error::EndOfStream,
        ),
        read is Ok ==> q is Ready && final(b).read_state == ReadState::Idle,
        read matches Err(e) && e is NotEnoughData ==> q is StartWait && final(b).read_state
            == ReadState::Reading,
        read matches Err(e) && e is EndOfStream ==> q is Ready,
        read matches Err(e) ==> (!(e is EndOfStream) && !(e is NotEnoughData) ==> q
            == ReadAction::Fail(e) && final(b).read_state == ReadState::Idle),
        final(a).inner == old(a).inner && final(b).inner == old(b).inner,
        final(a).write_state == old(a).write_state && final(b).write_state == old(b).write_state,
{
}

/// An idle writer does what it is asked for. A flush that was begun is finished before anything else
/// is; a close that was begun takes neither bytes nor a flush any more. Nothing at all is always
/// written.
pub proof fn law_writer_finishes_what_it_began<S>(
    a: &mut StreamExt<S>,
    len: usize,
    write: WriteAction,
    b: &mut StreamExt<S>,
    flush: WriteAction,
    c: &mut StreamExt<S>,
    shutdown: WriteAction,
)
    requires
        call_ensures(StreamExt::<S>::poll_write, (a, len), write),
        call_ensures(StreamExt::<S>::poll_flush, (b,), flush),
        call_ensures(StreamExt::<S>::poll_shutdown, (c,), shutdown),
    ensures
        len == 0 <==> write is Ready,
        len > 0 && old(a).write_state == WriteState::Idle <==> write is Write,
        len > 0 && old(a).write_state == WriteState::Flushing <==> write is PollFlush,
        len > 0 && old(a).write_state == WriteState::Closing ==> write == WriteAction::Fail(
            WriteError::ClosingDuringWrite,
        ),
        *final(a) == *old(a),
        old(b).write_state == WriteState::Idle <==> flush is StartFlush,
        old(b).write_state == WriteState::Flushing <==> flush is PollFlush,
        old(b).write_state == WriteState::Closing ==> flush == WriteAction::Fail(
            WriteError::ClosingDuringFlush,
        ),
        flush is StartFlush ==> final(b).write_state == WriteState::Flushing,
        !(flush is StartFlush) ==> *final(b) == *old(b),
        old(c).write_state == WriteState::Idle <==> shutdown is StartClose,
        old(c).write_state == WriteState::Flushing <==> shutdown is PollFlush,
        old(c).write_state == WriteState::Closing <==> shutdown is PollClose,
        shutdown is StartClose ==> final(c).write_state == WriteState::Closing,
        !(shutdown is StartClose) ==> *final(c) == *old(c),
        final(b).inner == old(b).inner && final(c).inner == old(c).inner,
        final(b).read_state == old(b).read_state && final(c).read_state == old(c).read_state,
{
}

/// After a flush the writer goes on with what the poll was for: bytes are written, a close is begun,
/// and a flush is done. What failed is reported, but for a flush of a stream that was closed.
pub proof fn law_writer_goes_on_after_a_flush<S>(
    a: &mut StreamExt<S>,
    call: WriteCall,
    flushed: Option<Result<(), Error>>,
    r: WriteAction,
    b: &mut StreamExt<S>,
    closed: Option<Result<(), Error>>,
    q: WriteAction,
)
    requires
        old(a).write_state == WriteState::Flushing,
        call_ensures(StreamExt::<S>::on_flush, (a, call, flushed), r),
        old(b).write_state == WriteState::Closing,
        call_ensures(StreamExt::<S>::on_close, (b, closed), q),
    ensures
        flushed is None <==> r is Pending,
        flushed is None ==> *final(a) == *old(a),
        flushed matches Some(Ok(_)) ==> match call {
            WriteCall::Write => r is Write && final(a).write_state == WriteState::Idle,
            WriteCall::Flush => r is Ready && final(a).write_state == WriteState::Idle,
            WriteCall::Shutdown => r is StartClose && final(a).write_state
                == WriteState::Closing,
        },
        flushed matches Some(Err(e)) ==> {
            &&& final(a).write_state == WriteState::Idle
            &&& call == WriteCall::Flush && e is StreamClosed ==> r is Ready
            &&& !(call == WriteCall::Flush && e is StreamClosed) ==> r == WriteAction::Fail(
                WriteError::Stream(e),
            )
        },
        closed is None <==> q is Pending,
        closed is None ==> *final(b) == *old(b),
        closed matches Some(Ok(_)) ==> q is Ready,
        closed matches Some(Err(e)) ==> q == WriteAction::Fail(WriteError::Stream(e)),
        closed is Some ==> final(b).write_state == WriteState::Idle,
        final(a).inner == old(a).inner && final(b).inner == old(b).inner,
        final(a).read_state == old(a).read_state && final(b).read_state == old(b).read_state,
{
}

} // verus!
