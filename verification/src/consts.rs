//! Sizes, limits and versions of the wire and memory formats.

use std::time::Duration;

use vstd::prelude::*;

use crate::config::SizePercentPair;
use crate::outside;

verus! {

/// The protocol version of a peer that shares memory by file path.
pub const PROTO_VERSION: u8 = 2;

/// The newest protocol version that is agreed on by exchanging headers.
pub const MAX_SUPPORT_PROTO_VERSION: u8 = 3;

/// The version that a server answers a version exchange with.
pub const MAX_LEGACY_PROTO_VERSION: u8 = 3;

/// The two bytes that every event header carries behind its length.
pub const MAGIC_NUMBER: u16 = 0x7758;

/// How a shared region is mapped.
#[derive(Clone, Copy, Debug, PartialEq, Eq, Structural)]
pub enum MemMapType {
    /// A file, usually below `/dev/shm`.
    MemMapTypeDevShmFile,
    /// An anonymous memory file descriptor handed over the connection.
    MemMapTypeMemFd,
}

impl Default for MemMapType {
    fn default() -> (r: Self)
        ensures
            r == MemMapType::MemMapTypeDevShmFile,
    {
        MemMapType::MemMapTypeDevShmFile
    }
}

/// The hot restart state of a session manager.
#[derive(Clone, Copy, Debug, PartialEq, Eq, Structural)]
pub enum StateType {
    DefaultState,
    HotRestartState,
    HotRestartDoneState,
}

impl Default for StateType {
    fn default() -> (r: Self)
        ensures
            r == StateType::DefaultState,
    {
        StateType::DefaultState
    }
}

/// The name of an anonymous memory file.
pub const MEMFD_CREATE_NAME: &'static str = "shmipc";

/// What the path of a buffer region ends in.
pub const BUFFER_PATH_SUFFIX: &'static str = "_buffer";

/// The same suffix under its older spelling.
pub const BUFER_PATH_SUFFIX: &'static str = "_buffer";

/// The kind of socket that peers talk over.
pub const UNIX_NETWORK: &'static str = "unix";

/// The bytes of one descriptor in a control message.
pub const MEMFD_DATA_LEN: usize = 4;

/// The bytes of an epoch id.
pub const EPOCH_ID_LEN: usize = 8;

/// How many descriptors a peer passes: the buffer region and the queue region.
pub const MEMFD_COUNT: usize = 2;

/// How many descriptors a peer passes when both wakeup eventfds come along.
pub const MEMFD_COUNT_EVENTFD: usize = 4;

/// The longest file name that Linux takes.
pub const FILE_NAME_MAX_LEN: usize = 255;

/// The longest epoch suffix of a path: `_epoch_{u64}_{u64}`.
pub const EPOCH_INFO_MAX_LEN: usize = 48;

/// The longest queue suffix of a path: `_queue_{usize}`.
pub const QUEUE_INFO_MAX_LEN: usize = 27;

pub const DEFAULT_QUEUE_CAP: u32 = 8192;

pub const DEFAULT_SHARE_MEMORY_CAP: u32 = 33554432;

/// The smallest heap slice that stands in for shared memory.
pub const DEFAULT_SINGLE_BUFFER_SIZE: i64 = 4096;

/// The bytes of one queue element: sequence id, buffer offset, status.
pub const QUEUE_ELEMENT_LEN: usize = 12;

/// A queue region holds one queue for each direction.
pub const QUEUE_COUNT: usize = 2;

pub const SIZE_OF_LENGTH: usize = 4;

pub const SIZE_OF_MAGIC: usize = 2;

pub const SIZE_OF_VERSION: usize = 1;

pub const SIZE_OF_TYPE: usize = 1;

/// The bytes of an event header: length, magic, version and type.
pub const HEADER_SIZE: usize = 8;

/// How long a hot restart may take.
pub fn hot_restart_check_timeout() -> (r: Duration)
    ensures
        outside::duration_nanos(r) == 2_000_000_000,
{
    Duration::from_secs(2)
}

/// How often the progress of a hot restart is looked at.
pub fn hot_restart_check_interval() -> (r: Duration)
    ensures
        outside::duration_nanos(r) == 100_000_000,
{
    Duration::from_millis(100)
}

/// How long a client waits before it builds a lost session anew.
pub fn session_rebuild_interval() -> (r: Duration)
    ensures
        outside::duration_nanos(r) == 60_000_000_000,
{
    Duration::from_secs(60)
}

/// The path of the queue region unless another is given.
pub const DEFAULT_QUEUE_PATH: &'static str = "/dev/shm/shmipc_queue";

/// The free lists of a buffer region unless others are given: each slice and its header of
/// twenty bytes fill 8, 32 or 128 KiB.
pub fn default_buffer_slice_sizes() -> (r: Vec<SizePercentPair>)
    ensures
        r@ == seq![
            SizePercentPair { size: 8172, percent: 50 },
            SizePercentPair { size: 32748, percent: 30 },
            SizePercentPair { size: 131052, percent: 20 },
        ],
{
    let r: Vec<SizePercentPair> = vec![
        SizePercentPair { size: 8172, percent: 50 },
        SizePercentPair { size: 32748, percent: 30 },
        SizePercentPair { size: 131052, percent: 20 },
    ];
    assert(r@ =~= seq![
        SizePercentPair { size: 8172, percent: 50 },
        SizePercentPair { size: 32748, percent: 30 },
        SizePercentPair { size: 131052, percent: 20 },
    ]);
    r
}

} // verus!
