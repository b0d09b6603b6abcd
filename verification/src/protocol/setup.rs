//! The regions that a client sets up before it talks to the server.

use vstd::prelude::*;
use vstd::string::StringExecFns;

use crate::buffer::manager::{BufferManager, ManagerError};
use crate::buffer::registry;
use crate::config::{Config, Platform, ProtocolMode};
use crate::consts::{MemMapType, BUFFER_PATH_SUFFIX, QUEUE_COUNT};
use crate::protocol::negotiation::PROTO_VERSION_V4;
use crate::queue;
use crate::queue::{QueueElement, QueueError, QueueLayout, QueueManager};

verus! {

/// The protocol whose queue layout a client sets up.
pub open spec fn spec_initial_version(mode: ProtocolMode, mem_map_type: MemMapType) -> u8 {
    if mode is V4 {
        PROTO_VERSION_V4
    } else if mem_map_type is MemMapTypeMemFd {
        3
    } else {
        2
    }
}

/// The protocol whose queue layout a client sets up.
pub fn initial_client_proto_version(config: &Config) -> (r: u8)
    ensures
        r == spec_initial_version(config.protocol.mode, config.mem_map_type),
{
    match config.protocol.mode {
        ProtocolMode::V4 { .. } => PROTO_VERSION_V4,
        ProtocolMode::Legacy => match config.mem_map_type {
            MemMapType::MemMapTypeMemFd => 3,
            MemMapType::MemMapTypeDevShmFile => 2,
        },
    }
}

/// The path of the buffer region.
pub fn buffer_path(config: &Config) -> (r: String)
    ensures
        r@ == config.share_memory_path_prefix@ + BUFFER_PATH_SUFFIX@,
{
    let mut path: String = config.share_memory_path_prefix.clone();
    path.append(BUFFER_PATH_SUFFIX);
    path
}

/// The queue layout of a protocol on a machine.
pub open spec fn layout_of(proto_version: u8, platform: Platform) -> QueueLayout {
    if proto_version >= 4 || platform.arm64 || platform.riscv64 {
        QueueLayout::Aligned
    } else {
        QueueLayout::Legacy
    }
}

/// The queues are new and empty, in the layout of the protocol.
pub open spec fn is_new_queue(
    q: QueueManager,
    m: Seq<u8>,
    config: Config,
    layout: QueueLayout,
    memfd: i32,
) -> bool {
    &&& q.path@ == config.queue_path@
    &&& q.mmap_map_type == config.mem_map_type
    &&& q.memfd == memfd
    &&& q.creates(m, config.queue_cap as int, layout)
    &&& q.send_queue.wf(m)
    &&& q.recv_queue.wf(m)
    &&& q.send_queue.elements(m) == Seq::<QueueElement>::empty()
    &&& q.recv_queue.elements(m) == Seq::<QueueElement>::empty()
    &&& q.send_queue.working_flag(m) == 0
    &&& q.recv_queue.working_flag(m) == 0
}

/// Sets up the buffers and the queues of a client in its regions. A region behind a file has no
/// descriptor to go with it; the number zero stands for it.
pub fn init_manager(
    config: &mut Config,
    proto_version: u8,
    platform: Platform,
    buffer_mem: &mut [u8],
    buffer_memfd: i32,
    queue_mem: &mut [u8],
    queue_memfd: i32,
) -> (r: Result<(BufferManager, QueueManager), ManagerError>)
    requires
        registry::can_set_up(old(config).buffer_slice_sizes@, old(buffer_mem)@.len() as int),
        old(queue_mem)@.len() == QUEUE_COUNT * queue::queue_mem_size(old(config).queue_cap as int),
    ensures
        final(config).same_elsewhere(*old(config)),
        final(config).queue_cap == old(config).queue_cap,
        registry::sorts(final(config).buffer_slice_sizes@, old(config).buffer_slice_sizes@),
        final(buffer_mem)@.len() == old(buffer_mem)@.len(),
        BufferManager::created(
            match r {
                Ok(b) => Ok(b.0),
                Err(e) => Err(e),
            },
            final(config).buffer_slice_sizes@,
            old(config).share_memory_path_prefix@ + BUFFER_PATH_SUFFIX@,
            0,
            old(buffer_mem)@,
            final(buffer_mem)@,
        ),
        match r {
            Ok((b, q)) => {
                let by_file = old(config).mem_map_type is MemMapTypeDevShmFile;
                &&& b.mem_map_type == old(config).mem_map_type
                &&& b.memfd == if by_file {
                    0
                } else {
                    buffer_memfd
                }
                &&& is_new_queue(
                    q,
                    final(queue_mem)@,
                    *old(config),
                    layout_of(proto_version, platform),
                    if by_file {
                        0
                    } else {
                        queue_memfd
                    },
                )
            },
            Err(_) => final(queue_mem)@ == old(queue_mem)@,
        },
{
    let path: String = buffer_path(config);
    let layout: QueueLayout = QueueLayout::for_target(proto_version, platform.needs_alignment());
    match config.mem_map_type {
        MemMapType::MemMapTypeDevShmFile => {
            match BufferManager::get_with_file(
                path.as_str(),
                buffer_mem,
                true,
                &mut config.buffer_slice_sizes,
            ) {
                Ok(b) => {
                    let q = QueueManager::create_with_file(
                        queue_mem,
                        config.queue_path.as_str(),
                        config.queue_cap,
                        layout,
                    );
                    Ok((b, q))
                },
                Err(e) => Err(e),
            }
        },
        MemMapType::MemMapTypeMemFd => {
            match BufferManager::get_with_memfd(
                path.as_str(),
                buffer_memfd,
                buffer_mem,
                true,
                &mut config.buffer_slice_sizes,
            ) {
                Ok(b) => {
                    let q = QueueManager::create_with_memfd(
                        queue_mem,
                        config.queue_path.as_str(),
                        config.queue_cap,
                        layout,
                        queue_memfd,
                    );
                    Ok((b, q))
                },
                Err(e) => Err(e),
            }
        },
    }
}

/// Why the regions of the client could not be mapped.
#[derive(Clone, Copy, Debug, PartialEq, Eq, Structural)]
pub enum MapError {
    Queue(QueueError),
    Buffer(ManagerError),
}

/// What comes of mapping the regions of the client: first the queues, and then the buffers.
pub open spec fn mapped(
    r: Result<(BufferManager, QueueManager), MapError>,
    queue_mem: Seq<u8>,
    queue_path: Seq<char>,
    buffer_mem: Seq<u8>,
    buffer_path: Seq<char>,
    layout: QueueLayout,
) -> bool {
    if layout == QueueLayout::Aligned && queue_mem.len() % 16 != 0 {
        r == Err::<(BufferManager, QueueManager), MapError>(MapError::Queue(QueueError::Unaligned))
    } else {
        match r {
            Ok((b, q)) => {
                &&& BufferManager::mapped(Ok(b), buffer_path, 0, buffer_mem)
                &&& q.path@ == queue_path
                &&& q.maps(queue_mem, layout)
            },
            Err(MapError::Buffer(e)) => BufferManager::mapped(Err(e), buffer_path, 0, buffer_mem),
            Err(MapError::Queue(_)) => false,
        }
    }
}

/// Maps the files of the client.
pub fn handle_share_memory_by_file_path(
    queue_mem: &[u8],
    queue_path: &str,
    buffer_mem: &[u8],
    buffer_path: &str,
    proto_version: u8,
    platform: Platform,
) -> (r: Result<(BufferManager, QueueManager), MapError>)
    requires
        2 * queue::QUEUE_HEADER_LENGTH <= queue_mem@.len(),
        buffer_mem@.len() <= u32::MAX,
    ensures
        mapped(
            r,
            queue_mem@,
            queue_path@,
            buffer_mem@,
            buffer_path@,
            layout_of(proto_version, platform),
        ),
        r matches Ok((b, q)) ==> b.mem_map_type is MemMapTypeDevShmFile && b.memfd == 0
            && q.mmap_map_type is MemMapTypeDevShmFile && q.memfd == 0,
{
    let layout: QueueLayout = QueueLayout::for_target(proto_version, platform.needs_alignment());
    match QueueManager::mapping_with_file(queue_mem, queue_path, layout) {
        Ok(q) => match BufferManager::mapping(buffer_path, buffer_mem, 0) {
            Ok(b) => Ok((b, q)),
            Err(e) => Err(MapError::Buffer(e)),
        },
        Err(e) => Err(MapError::Queue(e)),
    }
}

/// Maps the descriptors of the client.
pub fn handle_share_memory_by_memfd(
    queue_mem: &[u8],
    queue_path: &str,
    queue_fd: i32,
    buffer_mem: &[u8],
    buffer_path: &str,
    buffer_fd: i32,
    proto_version: u8,
    platform: Platform,
) -> (r: Result<(BufferManager, QueueManager), MapError>)
    requires
        2 * queue::QUEUE_HEADER_LENGTH <= queue_mem@.len(),
        buffer_mem@.len() <= u32::MAX,
    ensures
        mapped(
            r,
            queue_mem@,
            queue_path@,
            buffer_mem@,
            buffer_path@,
            layout_of(proto_version, platform),
        ),
        r matches Ok((b, q)) ==> b.mem_map_type is MemMapTypeMemFd && b.memfd == buffer_fd
            && q.mmap_map_type is MemMapTypeMemFd && q.memfd == queue_fd,
{
    let layout: QueueLayout = QueueLayout::for_target(proto_version, platform.needs_alignment());
    match QueueManager::mapping_with_memfd(queue_mem, queue_path, queue_fd, layout) {
        Ok(q) => match BufferManager::mapping(buffer_path, buffer_mem, 0) {
            Ok(b) => {
                let b = BufferManager {
                    lists: b.lists,
                    min_slice_size: b.min_slice_size,
                    max_slice_size: b.max_slice_size,
                    ref_count: b.ref_count,
                    mem_map_type: MemMapType::MemMapTypeMemFd,
                    path: b.path,
                    memfd: buffer_fd,
                };
                Ok((b, q))
            },
            Err(e) => Err(MapError::Buffer(e)),
        },
        Err(e) => Err(MapError::Queue(e)),
    }
}

/// A server that maps what a client set up finds the client's buffers, and each side sends where
/// the other receives.
#[verifier::spinoff_prover]
#[verifier::rlimit(40)]
pub proof fn law_server_finds_what_the_client_set_up(
    config: Config,
    client: (BufferManager, QueueManager),
    server: Result<(BufferManager, QueueManager), MapError>,
    m: Seq<u8>,
    buffer_mem: Seq<u8>,
    queue_mem: Seq<u8>,
    layout: QueueLayout,
    memfd: i32,
)
    requires
        BufferManager::created(
            Ok(client.0),
            config.buffer_slice_sizes@,
            client.0.path@,
            0,
            m,
            buffer_mem,
        ),
        is_new_queue(client.1, queue_mem, config, layout, memfd),
        config.queue_cap % 8 == 0,
        mapped(
            server,
            queue_mem,
            client.1.path@,
            buffer_mem,
            client.0.path@,
            layout,
        ),
    ensures
        server matches Ok((b, q)) && {
            &&& b.lists@.len() == client.0.lists@.len()
            &&& forall|i: int|
                0 <= i < b.lists@.len() ==> {
                    &&& (#[trigger] b.lists@[i]).offset_in_shm == client.0.lists@[i].offset_in_shm
                    &&& b.lists@[i].cap == client.0.lists@[i].cap
                    &&& b.lists@[i].cap_per_buffer == client.0.lists@[i].cap_per_buffer
                }
            &&& b.path@ == client.0.path@
            &&& q.recv_queue == client.1.send_queue
            &&& q.send_queue == client.1.recv_queue
        },
{
    client.0.law_set_up_can_be_mapped(buffer_mem, 0);
    let cap = config.queue_cap as int;
    assert(queue_mem.len() % 16 == 0) by {
        assert(queue_mem.len() == 2 * queue::queue_mem_size(cap));
    }
    match server {
        Ok((b, q)) => {
            client.0.law_mapping_finds_the_lists(b, buffer_mem, 0);
            QueueManager::law_peers_share_queues(client.1, q, queue_mem, cap, layout);
        },
        Err(_) => {},
    }
}

/// A client lays its queues out for V4 where it asks for V4, and for the protocol of its kind of
/// shared memory otherwise.
pub proof fn law_client_lays_out_for_its_protocol(config: Config, r: u8)
    requires
        call_ensures(initial_client_proto_version, (&config,), r),
    ensures
        config.protocol.mode is V4 <==> r == 4,
        config.protocol.mode is Legacy ==> (r == 3 <==> config.mem_map_type is MemMapTypeMemFd),
        config.protocol.mode is Legacy ==> (r == 2
            <==> config.mem_map_type is MemMapTypeDevShmFile),
{
}

/// What a client set up in its files a server on the same kind of machine can use: it finds the same
/// free lists, receives where the client sends and sends where the client receives, for every two
/// protocols of one layout.
pub proof fn law_server_uses_the_files_of_the_client(
    config: &mut Config,
    ours: u8,
    theirs: u8,
    platform: Platform,
    buffer_mem: &mut [u8],
    buffer_memfd: i32,
    queue_mem: &mut [u8],
    queue_memfd: i32,
    client: Result<(BufferManager, QueueManager), ManagerError>,
    queue_path: &str,
    path: &str,
    server: Result<(BufferManager, QueueManager), MapError>,
)
    requires
        call_ensures(
            init_manager,
            (config, ours, platform, buffer_mem, buffer_memfd, queue_mem, queue_memfd),
            client,
        ),
        client is Ok,
        old(config).queue_cap % 8 == 0,
        ours >= 4 <==> theirs >= 4,
        queue_path@ == old(config).queue_path@,
        path@ == client->Ok_0.0.path@,
        call_ensures(
            handle_share_memory_by_file_path,
            (&*final(queue_mem), queue_path, &*final(buffer_mem), path, theirs, platform),
            server,
        ),
    ensures
        server is Ok,
        ({
            let (b, q) = client->Ok_0;
            let (c, r) = server->Ok_0;
            &&& r.recv_queue == q.send_queue
            &&& r.send_queue == q.recv_queue
            &&& c.lists@.len() == b.lists@.len()
            &&& forall|i: int|
                0 <= i < c.lists@.len() ==> {
                    &&& (#[trigger] c.lists@[i]).offset_in_shm == b.lists@[i].offset_in_shm
                    &&& c.lists@[i].cap == b.lists@[i].cap
                    &&& c.lists@[i].cap_per_buffer == b.lists@[i].cap_per_buffer
                }
            &&& c.path@ == b.path@
        }),
{
    let b = client->Ok_0.0;
    let layout = layout_of(ours, platform);
    assert(BufferManager::created(
        Ok(b),
        final(config).buffer_slice_sizes@,
        b.path@,
        0,
        old(buffer_mem)@,
        final(buffer_mem)@,
    ));
    law_server_finds_what_the_client_set_up(
        *final(config),
        client->Ok_0,
        server,
        old(buffer_mem)@,
        final(buffer_mem)@,
        final(queue_mem)@,
        layout,
        client->Ok_0.1.memfd,
    );
}

/// Behind descriptors a server finds what it finds behind files, and keeps the descriptors that it
/// was sent, each for what it is.
pub proof fn law_descriptors_hold_what_files_hold(
    queue_mem: &[u8],
    queue_path: &str,
    queue_fd: i32,
    buffer_mem: &[u8],
    buffer_path: &str,
    buffer_fd: i32,
    proto_version: u8,
    platform: Platform,
    files: Result<(BufferManager, QueueManager), MapError>,
    fds: Result<(BufferManager, QueueManager), MapError>,
)
    requires
        call_ensures(
            handle_share_memory_by_file_path,
            (queue_mem, queue_path, buffer_mem, buffer_path, proto_version, platform),
            files,
        ),
        call_ensures(
            handle_share_memory_by_memfd,
            (
                queue_mem,
                queue_path,
                queue_fd,
                buffer_mem,
                buffer_path,
                buffer_fd,
                proto_version,
                platform,
            ),
            fds,
        ),
    ensures
        files is Ok <==> fds is Ok,
        fds matches Ok((b, q)) ==> b.memfd == buffer_fd && q.memfd == queue_fd
            && b.mem_map_type is MemMapTypeMemFd && q.mmap_map_type is MemMapTypeMemFd,
        files matches Ok((b, q)) ==> b.mem_map_type is MemMapTypeDevShmFile
            && q.mmap_map_type is MemMapTypeDevShmFile,
        files is Ok ==> {
            let (b, q) = files->Ok_0;
            let (c, r) = fds->Ok_0;
            &&& r.send_queue.base() == q.send_queue.base()
            &&& r.send_queue.capacity() == q.send_queue.capacity()
            &&& r.send_queue.layout() == q.send_queue.layout()
            &&& r.recv_queue.base() == q.recv_queue.base()
            &&& r.recv_queue.capacity() == q.recv_queue.capacity()
            &&& r.recv_queue.layout() == q.recv_queue.layout()
            &&& c.lists@.len() == b.lists@.len()
            &&& forall|i: int|
                0 <= i < c.lists@.len() ==> {
                    &&& (#[trigger] c.lists@[i]).offset_in_shm == b.lists@[i].offset_in_shm
                    &&& c.lists@[i].cap == b.lists@[i].cap
                    &&& c.lists@[i].cap_per_buffer == b.lists@[i].cap_per_buffer
                }
        },
{
}

} // verus!
