//! The errors that sessions, streams, queues and buffers report.

use vstd::prelude::*;

verus! {

#[derive(Debug)]
pub enum Error {
    /// A frame carries an invalid version.
    InvalidVersion,
    /// A frame carries an invalid message type.
    InvalidMsgType,
    /// There was a shutdown during an operation.
    SessionShutdown,
    /// There are no more stream ids to issue.
    StreamsExhausted,
    /// A duplicate stream was opened inbound.
    DuplicateStream,
    /// An IO deadline was reached.
    Timeout,
    /// A closed stream was used.
    StreamClosed,
    /// The peer reset the stream.
    StreamReset,
    /// The safety timeout of writes to the connection was hit.
    ConnectionWriteTimeout,
    ConnectionTimeout,
    /// A missed keepalive caused the stream to close.
    KeepAliveTimeout,
    /// The stream is at its end and holds nothing more to read.
    EndOfStream,
    /// The session is overloaded: shared memory ran out on one side and data went over the
    /// connection instead. Retry later.
    SessionUnhealthy,
    /// There is less to read than was asked for.
    NotEnoughData,
    /// The shared memory is busy and holds no more buffers to allocate.
    NoMoreBuffer,
    /// The allocated size is exceeded.
    SizeTooLarge,
    /// The layout of the shared memory is broken.
    BrokenBuffer,
    ShareMemoryHadNotLeftSpace,
    StreamCallbackHadExisted,
    /// A message of the wrong type arrived while the configuration was exchanged.
    ExchangeConfig,
    /// The exchange of the configuration timed out.
    ExchangeConfigTimeout,
    OSNonSupported,
    ArchNonSupported,
    /// Only one hot restart runs at a time.
    HotRestartInProgress,
    InHandshakeStage,
    /// The name of a shared memory file would be longer than the file system allows.
    FileNameTooLong,
    QueueEmpty,
    QueueFull,
    StreamPoolFull,
    /// The stream still holds this many unread bytes.
    StreamHasUnreadData(usize),
    /// The stream still holds this many pending slices.
    StreamHasPendingData(usize),
    /// An IO error of the connection, as text.
    Io(String),
    /// Any other error, as text.
    Others(String),
}

} // verus!
