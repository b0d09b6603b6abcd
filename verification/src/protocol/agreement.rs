//! What a client and a server end up with when each gets what the other sends.

use vstd::prelude::*;

use crate::config::{Platform, WakeupMode};
use crate::consts::HEADER_SIZE;
use crate::error::Error;
use crate::outside;
use crate::protocol::client::{
    ClientAction, ClientActionView, ClientEvent, ClientParams, ClientProgress,
    ClientProtocolAdapter, ClientState,
};
use crate::protocol::event::EventType;
use crate::protocol::header;
use crate::protocol::header::Header;
use crate::protocol::initializer;
use crate::protocol::initializer::{
    EventFdPair, InitCause, InitError, InitializedView, V4ClientInitError,
};
use crate::protocol::metadata;
use crate::protocol::negotiation;
use crate::protocol::negotiation::{
    FeatureView, NegotiatedFeature, NegotiationFailure, NegotiationRequest, NegotiationResponse,
    MSG_VERSION_V4, PROTO_VERSION_V4,
};
use crate::protocol::server::{
    ServerAction, ServerActionView, ServerEvent, ServerProgress, ServerProtocolAdapter,
    ServerState,
};

verus! {

/// A client that has not begun.
pub open spec fn client_start() -> ClientProgress {
    ClientProgress {
        state: ClientState::Start,
        feature: FeatureView::NoFeature,
        eventfd: None,
    }
}

/// The paths of a client fit their length fields.
pub open spec fn short_paths(c: ClientParams) -> bool {
    c.buffer_path.len() < 0x1_0000 && c.queue_path.len() < 0x1_0000
}

/// The message with the paths of a client.
pub open spec fn announcement(c: ClientParams, memfd: bool, version: u8) -> Seq<u8> {
    metadata::metadata(
        if memfd {
            EventType::TYPE_SHARE_MEMORY_BY_MEMFD
        } else {
            EventType::TYPE_SHARE_MEMORY_BY_FILE_PATH
        },
        c.buffer_path,
        c.queue_path,
        version,
    )
}

/// `h` and `body` are what is read of the message with the paths.
pub open spec fn read_of(m: Seq<u8>, h: Header, body: Vec<u8>) -> bool {
    h.0@ == m.take(HEADER_SIZE as int) && body@ == m.skip(HEADER_SIZE as int)
}

/// `h` is a message of a type that is a header alone.
pub open spec fn bare(h: Header, version: u8, msg_type: u8) -> bool {
    h.0@ == header::frame(HEADER_SIZE as u32, version, msg_type)
}

/// The outcome of a protocol before V4.
pub open spec fn legacy_outcome(version: u8) -> InitializedView {
    InitializedView {
        proto_version: version,
        msg_version: version,
        feature: FeatureView::NoFeature,
        eventfd: None,
    }
}

proof fn lemma_announcement(c: ClientParams, memfd: bool, version: u8, h: Header, body: Vec<u8>)
    requires
        short_paths(c),
        read_of(announcement(c, memfd, version), h, body),
    ensures
        h.length() == announcement(c, memfd, version).len(),
        h.version() == version,
        h.msg_type().0 == if memfd {
            EventType::TYPE_SHARE_MEMORY_BY_MEMFD
        } else {
            EventType::TYPE_SHARE_MEMORY_BY_FILE_PATH
        },
        h.magic() == crate::consts::MAGIC_NUMBER,
        h.length() >= HEADER_SIZE,
        metadata::has_metadata(body@),
        metadata::buffer_path_of(body@) == c.buffer_path,
        metadata::queue_path_of(body@) == c.queue_path,
{
    let t: u8 = if memfd {
        EventType::TYPE_SHARE_MEMORY_BY_MEMFD
    } else {
        EventType::TYPE_SHARE_MEMORY_BY_FILE_PATH
    };
    metadata::law_metadata_reads_back(t, c.buffer_path, c.queue_path, version);
    let m = announcement(c, memfd, version);
    assert(m.len() == 12 + c.buffer_path.len() + c.queue_path.len());
    Header::law_header_reads_back(h, m.len() as u32, version, t);
}

proof fn lemma_bare(h: Header, version: u8, msg_type: u8)
    requires
        bare(h, version, msg_type),
        msg_type <= 10,
    ensures
        initializer::awaited(h, msg_type) is Ok,
        crate::protocol::event::event_check(h) is Ok,
        h.version() == version,
        h.length() == HEADER_SIZE,
        h.msg_type().0 == msg_type,
{
    Header::law_header_reads_back(h, HEADER_SIZE as u32, version, msg_type);
}

/// Peers that share memory by file path end up with V2, and the server maps the files of the
/// client.
pub proof fn law_file_peers_agree(
    c: ClientParams,
    platform: Platform,
    request: Result<NegotiationRequest, NegotiationFailure>,
    h: Header,
    body: Vec<u8>,
)
    requires
        c.mode is Legacy,
        c.mem_map_type is MemMapTypeDevShmFile,
        short_paths(c),
        read_of(announcement(c, false, 2), h, body),
    ensures
        ({
            let (c1, a1) = c.next(client_start(), request, ClientEvent::Begin);
            let (c2, a2) = c.next(c1, request, ClientEvent::Sent);
            let (s1, b1) = ServerProgress::start().next(platform, ServerEvent::Begin);
            let (s2, b2) = s1.next(platform, ServerEvent::Header(h));
            let (s3, b3) = s2.next(platform, ServerEvent::Body(body));
            let (s4, b4) = s3.next(platform, ServerEvent::Mapped);
            &&& s1.expects(ServerEvent::Header(h)) && s2.expects(ServerEvent::Body(body))
            &&& a1 == ClientActionView::Send(announcement(c, false, 2))
            &&& b1 == ServerActionView::ReadHeader
            &&& b2 == ServerActionView::ReadBody(body@.len() as u32)
            &&& b3 == (ServerActionView::MapFiles { proto: 2 })
            &&& s3.buffer_path == c.buffer_path && s3.queue_path == c.queue_path
            &&& a2 == ClientActionView::Done(legacy_outcome(2))
            &&& b4 == ServerActionView::Done(legacy_outcome(2))
        }),
{
    reveal(ServerProgress::next);
    reveal(ClientParams::next);
    lemma_announcement(c, false, 2, h, body);
}

/// Peers that share memory by memfd end up with V3, and the server maps the descriptors of the
/// client.
pub proof fn law_memfd_peers_agree(
    c: ClientParams,
    platform: Platform,
    request: Result<NegotiationRequest, NegotiationFailure>,
    version: Header,
    h: Header,
    body: Vec<u8>,
    ready: Header,
    fds: Vec<i32>,
    ack: Header,
)
    requires
        c.mode is Legacy,
        c.mem_map_type is MemMapTypeMemFd,
        short_paths(c),
        bare(version, 3, EventType::TYPE_EXCHANGE_PROTO_VERSION),
        read_of(announcement(c, true, 3), h, body),
        bare(ready, 3, EventType::TYPE_ACK_READY_RECV_FD),
        fds@ == seq![c.buffer_fd, c.queue_fd],
        bare(ack, 3, EventType::TYPE_ACK_SHARE_MEMORY),
    ensures
        ({
            let (c1, a1) = c.next(client_start(), request, ClientEvent::Begin);
            let (c2, a2) = c.next(c1, request, ClientEvent::Sent);
            let (s1, b1) = ServerProgress::start().next(platform, ServerEvent::Begin);
            let (s2, b2) = s1.next(platform, ServerEvent::Header(version));
            let (s3, b3) = s2.next(platform, ServerEvent::Sent);
            let (c3, a3) = c.next(c2, request, ClientEvent::Header(version));
            let (c4, a4) = c.next(c3, request, ClientEvent::Sent);
            let (s4, b4) = s3.next(platform, ServerEvent::Header(h));
            let (s5, b5) = s4.next(platform, ServerEvent::Body(body));
            let (s6, b6) = s5.next(platform, ServerEvent::Sent);
            let (c5, a5) = c.next(c4, request, ClientEvent::Header(ready));
            let (c6, a6) = c.next(c5, request, ClientEvent::Sent);
            let (s7, b7) = s6.next(platform, ServerEvent::Fds(fds));
            let (s8, b8) = s7.next(platform, ServerEvent::Mapped);
            let (s9, b9) = s8.next(platform, ServerEvent::Sent);
            let (c7, a7) = c.next(c6, request, ClientEvent::Header(ack));
            &&& a1 == ClientActionView::Send(version.0@) && b1 == ServerActionView::ReadHeader
            &&& b2 == ServerActionView::Send(version.0@) && a2 == ClientActionView::ReadHeader
            &&& a3 == ClientActionView::Send(announcement(c, true, 3))
            &&& a4 == ClientActionView::ReadHeader && b3 == ServerActionView::ReadHeader
            &&& s3.expects(ServerEvent::Header(h)) && s4.expects(ServerEvent::Body(body))
            &&& b4 == ServerActionView::ReadBody(body@.len() as u32)
            &&& b5 == ServerActionView::Send(ready.0@)
            &&& a5 == ClientActionView::SendFds(fds@)
            &&& b6 == ServerActionView::RecvFds(fds@.len() as usize)
            &&& s6.expects(ServerEvent::Fds(fds)) && a6 == ClientActionView::ReadHeader
            &&& b7 == (ServerActionView::MapFds {
                buffer_fd: c.buffer_fd,
                queue_fd: c.queue_fd,
                proto: 3,
            })
            &&& s7.buffer_path == c.buffer_path && s7.queue_path == c.queue_path
            &&& b8 == ServerActionView::Send(ack.0@)
            &&& a7 == ClientActionView::Done(legacy_outcome(3))
            &&& b9 == ServerActionView::Done(legacy_outcome(3))
        }),
{
    reveal(ServerProgress::next);
    reveal(ClientParams::next);
    lemma_bare(version, 3, EventType::TYPE_EXCHANGE_PROTO_VERSION);
    lemma_bare(ready, 3, EventType::TYPE_ACK_READY_RECV_FD);
    lemma_bare(ack, 3, EventType::TYPE_ACK_SHARE_MEMORY);
    lemma_announcement(c, true, 3, h, body);
}

proof fn lemma_v4_server(
    c: ClientParams,
    platform: Platform,
    request: NegotiationRequest,
    request_json: Seq<u8>,
    asked: Header,
    feature: NegotiatedFeature,
    made: EventFdPair,
    h: Header,
    body: Vec<u8>,
    fds: Vec<i32>,
)
    requires
        short_paths(c),
        request.takes_v4(),
        HEADER_SIZE + request_json.len() <= u32::MAX,
        asked.0@ == initializer::negotiation_frame(request_json).take(HEADER_SIZE as int),
        feature.view() == request.selection(platform),
        read_of(announcement(c, true, MSG_VERSION_V4), h, body),
        fds@ == if feature is EventFd {
            seq![c.buffer_fd, c.queue_fd, made.wakeup_send, made.wakeup_recv]
        } else {
            seq![c.buffer_fd, c.queue_fd]
        },
    ensures
        ({
            let (s1, b1) = ServerProgress::start().next(platform, ServerEvent::Begin);
            let (s2, b2) = s1.next(platform, ServerEvent::Header(asked));
            let (s3, b3) = s2.next(platform, ServerEvent::Request(request));
            let (s4, b4) = s3.next(platform, ServerEvent::Sent);
            let (s5, b5) = s4.next(platform, ServerEvent::Header(h));
            let (s6, b6) = s5.next(platform, ServerEvent::Body(body));
            let (s7, b7) = s6.next(platform, ServerEvent::Sent);
            let (s8, b8) = s7.next(platform, ServerEvent::Fds(fds));
            let (s9, b9) = s8.next(platform, ServerEvent::Mapped);
            let (s10, b10) = s9.next(platform, ServerEvent::Sent);
            &&& b2 == ServerActionView::ReadRequest(request_json.len() as u32)
            &&& b3 == ServerActionView::Agree
            &&& s4.expects(ServerEvent::Header(h)) && s5.expects(ServerEvent::Body(body))
            &&& b6 == ServerActionView::Send(
                header::frame(
                    HEADER_SIZE as u32,
                    MSG_VERSION_V4,
                    EventType::TYPE_ACK_READY_RECV_FD,
                ),
            )
            &&& b7 == ServerActionView::RecvFds(fds@.len() as usize)
            &&& s7.expects(ServerEvent::Fds(fds))
            &&& b8 == (ServerActionView::MapFds {
                buffer_fd: c.buffer_fd,
                queue_fd: c.queue_fd,
                proto: PROTO_VERSION_V4,
            })
            &&& s8.buffer_path == c.buffer_path && s8.queue_path == c.queue_path
            &&& b9 == ServerActionView::Send(
                header::frame(
                    HEADER_SIZE as u32,
                    MSG_VERSION_V4,
                    EventType::TYPE_ACK_SHARE_MEMORY,
                ),
            )
            &&& b10 == ServerActionView::Done(v4_server_outcome(feature, made))
        }),
{
    lemma_v4_server_answers(platform, request, request_json, asked);
    let s1 = ServerProgress::start().next(platform, ServerEvent::Begin).0;
    let s2 = s1.next(platform, ServerEvent::Header(asked)).0;
    let s3 = s2.next(platform, ServerEvent::Request(request)).0;
    let s4 = s3.next(platform, ServerEvent::Sent).0;
    lemma_v4_server_maps(s4, c, platform, feature, made, h, body, fds);
}

proof fn lemma_v4_server_answers(
    platform: Platform,
    request: NegotiationRequest,
    request_json: Seq<u8>,
    asked: Header,
)
    requires
        request.takes_v4(),
        HEADER_SIZE + request_json.len() <= u32::MAX,
        asked.0@ == initializer::negotiation_frame(request_json).take(HEADER_SIZE as int),
    ensures
        ({
            let (s1, b1) = ServerProgress::start().next(platform, ServerEvent::Begin);
            let (s2, b2) = s1.next(platform, ServerEvent::Header(asked));
            let (s3, b3) = s2.next(platform, ServerEvent::Request(request));
            let (s4, b4) = s3.next(platform, ServerEvent::Sent);
            &&& b2 == ServerActionView::ReadRequest(request_json.len() as u32)
            &&& b3 == ServerActionView::Agree
            &&& s4 == (ServerProgress {
                state: ServerState::AwaitShm { proto: PROTO_VERSION_V4 },
                feature: request.selection(platform),
                ..ServerProgress::start()
            })
        }),
{
    reveal(ServerProgress::next);
    initializer::law_negotiation_reads_back(request_json, asked);
    let s1 = ServerProgress::start().next(platform, ServerEvent::Begin).0;
    assert(s1 == ServerProgress { state: ServerState::AwaitFirst, ..ServerProgress::start() });
    let s2 = s1.next(platform, ServerEvent::Header(asked)).0;
    assert(s2 == ServerProgress { state: ServerState::AwaitRequest, ..ServerProgress::start() });
}

proof fn lemma_v4_server_maps(
    s4: ServerProgress,
    c: ClientParams,
    platform: Platform,
    feature: NegotiatedFeature,
    made: EventFdPair,
    h: Header,
    body: Vec<u8>,
    fds: Vec<i32>,
)
    requires
        short_paths(c),
        s4.state == (ServerState::AwaitShm { proto: PROTO_VERSION_V4 }),
        s4.feature == feature.view(),
        s4.eventfd is None,
        read_of(announcement(c, true, MSG_VERSION_V4), h, body),
        fds@ == if feature is EventFd {
            seq![c.buffer_fd, c.queue_fd, made.wakeup_send, made.wakeup_recv]
        } else {
            seq![c.buffer_fd, c.queue_fd]
        },
    ensures
        ({
            let (s5, b5) = s4.next(platform, ServerEvent::Header(h));
            let (s6, b6) = s5.next(platform, ServerEvent::Body(body));
            let (s7, b7) = s6.next(platform, ServerEvent::Sent);
            let (s8, b8) = s7.next(platform, ServerEvent::Fds(fds));
            let (s9, b9) = s8.next(platform, ServerEvent::Mapped);
            let (s10, b10) = s9.next(platform, ServerEvent::Sent);
            &&& s4.expects(ServerEvent::Header(h)) && s5.expects(ServerEvent::Body(body))
            &&& b6 == ServerActionView::Send(
                header::frame(
                    HEADER_SIZE as u32,
                    MSG_VERSION_V4,
                    EventType::TYPE_ACK_READY_RECV_FD,
                ),
            )
            &&& b7 == ServerActionView::RecvFds(fds@.len() as usize)
            &&& s7.expects(ServerEvent::Fds(fds))
            &&& b8 == (ServerActionView::MapFds {
                buffer_fd: c.buffer_fd,
                queue_fd: c.queue_fd,
                proto: PROTO_VERSION_V4,
            })
            &&& s8.buffer_path == c.buffer_path && s8.queue_path == c.queue_path
            &&& b9 == ServerActionView::Send(
                header::frame(
                    HEADER_SIZE as u32,
                    MSG_VERSION_V4,
                    EventType::TYPE_ACK_SHARE_MEMORY,
                ),
            )
            &&& b10 == ServerActionView::Done(v4_server_outcome(feature, made))
        }),
{
    lemma_v4_server_paths(s4, c, platform, h, body);
    let s5 = s4.next(platform, ServerEvent::Header(h)).0;
    let s6 = s5.next(platform, ServerEvent::Body(body)).0;
    let s7 = s6.next(platform, ServerEvent::Sent).0;
    lemma_v4_server_fds(s7, platform, fds);
}

proof fn lemma_v4_server_paths(
    s4: ServerProgress,
    c: ClientParams,
    platform: Platform,
    h: Header,
    body: Vec<u8>,
)
    requires
        short_paths(c),
        s4.state == (ServerState::AwaitShm { proto: PROTO_VERSION_V4 }),
        read_of(announcement(c, true, MSG_VERSION_V4), h, body),
    ensures
        ({
            let (s5, b5) = s4.next(platform, ServerEvent::Header(h));
            let (s6, b6) = s5.next(platform, ServerEvent::Body(body));
            let (s7, b7) = s6.next(platform, ServerEvent::Sent);
            &&& s4.expects(ServerEvent::Header(h)) && s5.expects(ServerEvent::Body(body))
            &&& b6 == ServerActionView::Send(
                header::frame(
                    HEADER_SIZE as u32,
                    MSG_VERSION_V4,
                    EventType::TYPE_ACK_READY_RECV_FD,
                ),
            )
            &&& b7 == ServerActionView::RecvFds(s4.fd_count())
            &&& s7 == (ServerProgress {
                state: ServerState::AwaitFds { proto: PROTO_VERSION_V4 },
                buffer_path: c.buffer_path,
                queue_path: c.queue_path,
                ..s4
            })
        }),
{
    reveal(ServerProgress::next);
    lemma_announcement(c, true, MSG_VERSION_V4, h, body);
    let s5 = s4.next(platform, ServerEvent::Header(h)).0;
    assert(s5 == ServerProgress {
        state: ServerState::AwaitBody { proto: PROTO_VERSION_V4, memfd: true },
        ..s4
    });
}

proof fn lemma_v4_server_fds(s7: ServerProgress, platform: Platform, fds: Vec<i32>)
    requires
        s7.state == (ServerState::AwaitFds { proto: PROTO_VERSION_V4 }),
        fds@.len() >= s7.fd_count(),
    ensures
        ({
            let (s8, b8) = s7.next(platform, ServerEvent::Fds(fds));
            let (s9, b9) = s8.next(platform, ServerEvent::Mapped);
            let (s10, b10) = s9.next(platform, ServerEvent::Sent);
            &&& b8 == (ServerActionView::MapFds {
                buffer_fd: fds@[0],
                queue_fd: fds@[1],
                proto: PROTO_VERSION_V4,
            })
            &&& s8.buffer_path == s7.buffer_path && s8.queue_path == s7.queue_path
            &&& b9 == ServerActionView::Send(
                header::frame(
                    HEADER_SIZE as u32,
                    MSG_VERSION_V4,
                    EventType::TYPE_ACK_SHARE_MEMORY,
                ),
            )
            &&& b10 == ServerActionView::Done(
                InitializedView {
                    proto_version: PROTO_VERSION_V4,
                    msg_version: MSG_VERSION_V4,
                    feature: s7.feature,
                    eventfd: if s7.feature is EventFd {
                        Some(EventFdPair { wakeup_send: fds@[3], wakeup_recv: fds@[2] })
                    } else {
                        s7.eventfd
                    },
                },
            )
        }),
{
    reveal(ServerProgress::next);
}

proof fn lemma_v4_client(
    c: ClientParams,
    request: NegotiationRequest,
    response_json: Seq<u8>,
    answered: Header,
    feature: NegotiatedFeature,
    response: NegotiationResponse,
    made: EventFdPair,
    ready: Header,
    fds: Vec<i32>,
    ack: Header,
)
    requires
        c.mode is V4,
        c.mem_map_type is MemMapTypeMemFd,
        response.agrees(feature),
        response.selected(request) == Ok::<FeatureView, NegotiationFailure>(feature.view()),
        HEADER_SIZE + response_json.len() <= u32::MAX,
        answered.0@ == initializer::negotiation_frame(response_json).take(HEADER_SIZE as int),
        bare(ready, MSG_VERSION_V4, EventType::TYPE_ACK_READY_RECV_FD),
        fds@ == if feature is EventFd {
            seq![c.buffer_fd, c.queue_fd, made.wakeup_send, made.wakeup_recv]
        } else {
            seq![c.buffer_fd, c.queue_fd]
        },
        bare(ack, MSG_VERSION_V4, EventType::TYPE_ACK_SHARE_MEMORY),
    ensures
        ({
            let q = Ok::<NegotiationRequest, NegotiationFailure>(request);
            let (c1, a1) = c.next(client_start(), q, ClientEvent::Begin);
            let (c2, a2) = c.next(c1, q, ClientEvent::Sent);
            let (c3, a3) = c.next(c2, q, ClientEvent::Header(answered));
            let (c4, a4) = c.next(c3, q, ClientEvent::Response(response));
            let (c5, a5) = if feature is EventFd {
                c.next(c4, q, ClientEvent::EventFds(made))
            } else {
                (c4, a4)
            };
            let (c6, a6) = c.next(c5, q, ClientEvent::Sent);
            let (c7, a7) = c.next(c6, q, ClientEvent::Header(ready));
            let (c8, a8) = c.next(c7, q, ClientEvent::Sent);
            let (c9, a9) = c.next(c8, q, ClientEvent::Header(ack));
            &&& a1 == ClientActionView::SendRequest
            &&& a3 == ClientActionView::ReadResponse(response_json.len() as u32)
            &&& feature is EventFd ==> a4 == ClientActionView::CreateEventFds
            &&& a5 == ClientActionView::Send(announcement(c, true, MSG_VERSION_V4))
            &&& a7 == ClientActionView::SendFds(fds@)
            &&& a9 == ClientActionView::Done(v4_client_outcome(feature, made))
        }),
{
    reveal(ClientParams::next);
    initializer::law_negotiation_reads_back(response_json, answered);
    lemma_bare(ready, MSG_VERSION_V4, EventType::TYPE_ACK_READY_RECV_FD);
    lemma_bare(ack, MSG_VERSION_V4, EventType::TYPE_ACK_SHARE_MEMORY);
}

/// The outcome of V4 at the client, which made the eventfds.
pub open spec fn v4_client_outcome(
    feature: NegotiatedFeature,
    made: EventFdPair,
) -> InitializedView {
    InitializedView {
        proto_version: PROTO_VERSION_V4,
        msg_version: MSG_VERSION_V4,
        feature: feature.view(),
        eventfd: if feature is EventFd {
            Some(made)
        } else {
            None
        },
    }
}

/// The outcome of V4 at the server, which receives on what the client sends on.
pub open spec fn v4_server_outcome(
    feature: NegotiatedFeature,
    made: EventFdPair,
) -> InitializedView {
    InitializedView {
        eventfd: if feature is EventFd {
            Some(EventFdPair { wakeup_send: made.wakeup_recv, wakeup_recv: made.wakeup_send })
        } else {
            None
        },
        ..v4_client_outcome(feature, made)
    }
}

/// Peers that negotiate V4 and share memory by memfd end up with one feature, and with eventfds
/// each side receives on what the other sends on.
pub proof fn law_v4_peers_agree(
    c: ClientParams,
    platform: Platform,
    request: NegotiationRequest,
    request_json: Seq<u8>,
    asked: Header,
    feature: NegotiatedFeature,
    response: NegotiationResponse,
    response_json: Seq<u8>,
    answered: Header,
    made: EventFdPair,
    h: Header,
    body: Vec<u8>,
    ready: Header,
    fds: Vec<i32>,
    ack: Header,
)
    requires
        c.mode is V4,
        c.mem_map_type is MemMapTypeMemFd,
        short_paths(c),
        NegotiationRequest::is_for(Ok(request), c.wakeup, c.platform),
        HEADER_SIZE + request_json.len() <= u32::MAX,
        asked.0@ == initializer::negotiation_frame(request_json).take(HEADER_SIZE as int),
        feature.view() == request.selection(platform),
        response.agrees(feature),
        HEADER_SIZE + response_json.len() <= u32::MAX,
        answered.0@ == initializer::negotiation_frame(response_json).take(HEADER_SIZE as int),
        read_of(announcement(c, true, MSG_VERSION_V4), h, body),
        bare(ready, MSG_VERSION_V4, EventType::TYPE_ACK_READY_RECV_FD),
        fds@ == if feature is EventFd {
            seq![c.buffer_fd, c.queue_fd, made.wakeup_send, made.wakeup_recv]
        } else {
            seq![c.buffer_fd, c.queue_fd]
        },
        bare(ack, MSG_VERSION_V4, EventType::TYPE_ACK_SHARE_MEMORY),
    ensures
        ({
            let q = Ok::<NegotiationRequest, NegotiationFailure>(request);
            let (c1, a1) = c.next(client_start(), q, ClientEvent::Begin);
            let (c2, a2) = c.next(c1, q, ClientEvent::Sent);
            let (s1, b1) = ServerProgress::start().next(platform, ServerEvent::Begin);
            let (s2, b2) = s1.next(platform, ServerEvent::Header(asked));
            let (s3, b3) = s2.next(platform, ServerEvent::Request(request));
            let (s4, b4) = s3.next(platform, ServerEvent::Sent);
            let (c3, a3) = c.next(c2, q, ClientEvent::Header(answered));
            let (c4, a4) = c.next(c3, q, ClientEvent::Response(response));
            let (c5, a5) = if feature is EventFd {
                c.next(c4, q, ClientEvent::EventFds(made))
            } else {
                (c4, a4)
            };
            let (c6, a6) = c.next(c5, q, ClientEvent::Sent);
            let (s5, b5) = s4.next(platform, ServerEvent::Header(h));
            let (s6, b6) = s5.next(platform, ServerEvent::Body(body));
            let (s7, b7) = s6.next(platform, ServerEvent::Sent);
            let (c7, a7) = c.next(c6, q, ClientEvent::Header(ready));
            let (c8, a8) = c.next(c7, q, ClientEvent::Sent);
            let (s8, b8) = s7.next(platform, ServerEvent::Fds(fds));
            let (s9, b9) = s8.next(platform, ServerEvent::Mapped);
            let (s10, b10) = s9.next(platform, ServerEvent::Sent);
            let (c9, a9) = c.next(c8, q, ClientEvent::Header(ack));
            &&& a1 == ClientActionView::SendRequest
            &&& b2 == ServerActionView::ReadRequest(request_json.len() as u32)
            &&& b3 == ServerActionView::Agree
            &&& a3 == ClientActionView::ReadResponse(response_json.len() as u32)
            &&& feature is EventFd ==> a4 == ClientActionView::CreateEventFds
            &&& a5 == ClientActionView::Send(announcement(c, true, MSG_VERSION_V4))
            &&& s4.expects(ServerEvent::Header(h)) && s5.expects(ServerEvent::Body(body))
            &&& b6 == ServerActionView::Send(ready.0@)
            &&& a7 == ClientActionView::SendFds(fds@)
            &&& b7 == ServerActionView::RecvFds(fds@.len() as usize)
            &&& s7.expects(ServerEvent::Fds(fds))
            &&& b8 == (ServerActionView::MapFds {
                buffer_fd: c.buffer_fd,
                queue_fd: c.queue_fd,
                proto: PROTO_VERSION_V4,
            })
            &&& s8.buffer_path == c.buffer_path && s8.queue_path == c.queue_path
            &&& b9 == ServerActionView::Send(ack.0@)
            &&& a9 == ClientActionView::Done(v4_client_outcome(feature, made))
            &&& b10 == ServerActionView::Done(v4_server_outcome(feature, made))
        }),
{
    negotiation::law_server_selects_what_was_asked(request, c.wakeup, c.platform, platform);
    negotiation::law_both_sides_use_one_feature(request, feature, response, platform);
    lemma_v4_server(c, platform, request, request_json, asked, feature, made, h, body, fds);
    lemma_v4_client(
        c,
        request,
        response_json,
        answered,
        feature,
        response,
        made,
        ready,
        fds,
        ack,
    );
}

proof fn lemma_v4_file_server(
    s4: ServerProgress,
    c: ClientParams,
    platform: Platform,
    h: Header,
    body: Vec<u8>,
)
    requires
        short_paths(c),
        s4.state == (ServerState::AwaitShm { proto: PROTO_VERSION_V4 }),
        !(s4.feature is EventFd),
        s4.eventfd is None,
        read_of(announcement(c, false, MSG_VERSION_V4), h, body),
    ensures
        ({
            let (s5, b5) = s4.next(platform, ServerEvent::Header(h));
            let (s6, b6) = s5.next(platform, ServerEvent::Body(body));
            let (s7, b7) = s6.next(platform, ServerEvent::Mapped);
            let (s8, b8) = s7.next(platform, ServerEvent::Sent);
            &&& s4.expects(ServerEvent::Header(h)) && s5.expects(ServerEvent::Body(body))
            &&& s6.expects(ServerEvent::Mapped)
            &&& b5 == ServerActionView::ReadBody(body@.len() as u32)
            &&& b6 == (ServerActionView::MapFiles { proto: 4 })
            &&& s6.buffer_path == c.buffer_path && s6.queue_path == c.queue_path
            &&& b7 == ServerActionView::Send(
                header::frame(8, MSG_VERSION_V4, EventType::TYPE_ACK_SHARE_MEMORY),
            )
            &&& b8 == ServerActionView::Done(
                InitializedView {
                    proto_version: 4,
                    msg_version: 0,
                    feature: s4.feature,
                    eventfd: None,
                },
            )
        }),
{
    reveal(ServerProgress::next);
    lemma_announcement(c, false, MSG_VERSION_V4, h, body);
    let s5 = s4.next(platform, ServerEvent::Header(h)).0;
    assert(s5 == ServerProgress {
        state: ServerState::AwaitBody { proto: PROTO_VERSION_V4, memfd: false },
        ..s4
    });
}

proof fn lemma_v4_file_client(
    c: ClientParams,
    request: NegotiationRequest,
    response_json: Seq<u8>,
    answered: Header,
    feature: NegotiatedFeature,
    response: NegotiationResponse,
    ack: Header,
)
    requires
        c.mode is V4,
        c.mem_map_type is MemMapTypeDevShmFile,
        !(feature is EventFd),
        response.agrees(feature),
        response.selected(request) == Ok::<FeatureView, NegotiationFailure>(feature.view()),
        HEADER_SIZE + response_json.len() <= u32::MAX,
        answered.0@ == initializer::negotiation_frame(response_json).take(HEADER_SIZE as int),
        bare(ack, MSG_VERSION_V4, EventType::TYPE_ACK_SHARE_MEMORY),
    ensures
        ({
            let q = Ok::<NegotiationRequest, NegotiationFailure>(request);
            let (c1, a1) = c.next(client_start(), q, ClientEvent::Begin);
            let (c2, a2) = c.next(c1, q, ClientEvent::Sent);
            let (c3, a3) = c.next(c2, q, ClientEvent::Header(answered));
            let (c4, a4) = c.next(c3, q, ClientEvent::Response(response));
            let (c5, a5) = c.next(c4, q, ClientEvent::Sent);
            let (c6, a6) = c.next(c5, q, ClientEvent::Header(ack));
            &&& a1 == ClientActionView::SendRequest
            &&& a2 == ClientActionView::ReadHeader
            &&& a3 == ClientActionView::ReadResponse(response_json.len() as u32)
            &&& a4 == ClientActionView::Send(announcement(c, false, MSG_VERSION_V4))
            &&& a5 == ClientActionView::ReadHeader
            &&& a6 == ClientActionView::Done(
                InitializedView {
                    proto_version: 4,
                    msg_version: 0,
                    feature: feature.view(),
                    eventfd: None,
                },
            )
        }),
{
    reveal(ClientParams::next);
    initializer::law_negotiation_reads_back(response_json, answered);
    lemma_bare(ack, MSG_VERSION_V4, EventType::TYPE_ACK_SHARE_MEMORY);
}

/// Peers that negotiate V4 and share memory by file path end up with V4 and with one feature, the
/// one that the client was configured for. The server is told to map the files at the client's
/// paths under V4, the protocol that both agreed on, so that both sides use its queue layout.
pub proof fn law_v4_file_peers_agree(
    c: ClientParams,
    platform: Platform,
    request: NegotiationRequest,
    request_json: Seq<u8>,
    asked: Header,
    feature: NegotiatedFeature,
    response: NegotiationResponse,
    response_json: Seq<u8>,
    answered: Header,
    h: Header,
    body: Vec<u8>,
    ack: Header,
)
    requires
        c.mode is V4,
        c.mem_map_type is MemMapTypeDevShmFile,
        !(c.wakeup is EventFd),
        short_paths(c),
        NegotiationRequest::is_for(Ok(request), c.wakeup, c.platform),
        HEADER_SIZE + request_json.len() <= u32::MAX,
        asked.0@ == initializer::negotiation_frame(request_json).take(HEADER_SIZE as int),
        feature.view() == request.selection(platform),
        response.agrees(feature),
        HEADER_SIZE + response_json.len() <= u32::MAX,
        answered.0@ == initializer::negotiation_frame(response_json).take(HEADER_SIZE as int),
        read_of(announcement(c, false, MSG_VERSION_V4), h, body),
        bare(ack, MSG_VERSION_V4, EventType::TYPE_ACK_SHARE_MEMORY),
    ensures
        ({
            let q = Ok::<NegotiationRequest, NegotiationFailure>(request);
            let (c1, a1) = c.next(client_start(), q, ClientEvent::Begin);
            let (c2, a2) = c.next(c1, q, ClientEvent::Sent);
            let (s1, b1) = ServerProgress::start().next(platform, ServerEvent::Begin);
            let (s2, b2) = s1.next(platform, ServerEvent::Header(asked));
            let (s3, b3) = s2.next(platform, ServerEvent::Request(request));
            let (s4, b4) = s3.next(platform, ServerEvent::Sent);
            let (c3, a3) = c.next(c2, q, ClientEvent::Header(answered));
            let (c4, a4) = c.next(c3, q, ClientEvent::Response(response));
            let (c5, a5) = c.next(c4, q, ClientEvent::Sent);
            let (s5, b5) = s4.next(platform, ServerEvent::Header(h));
            let (s6, b6) = s5.next(platform, ServerEvent::Body(body));
            let (s7, b7) = s6.next(platform, ServerEvent::Mapped);
            let (s8, b8) = s7.next(platform, ServerEvent::Sent);
            let (c6, a6) = c.next(c5, q, ClientEvent::Header(ack));
            let outcome = InitializedView {
                proto_version: 4,
                msg_version: 0,
                feature: match c.wakeup {
                    WakeupMode::EventQueuePolling { interval } => {
                        FeatureView::EventQueuePolling {
                            nanos: outside::duration_nanos(interval) / 1000 * 1000,
                        }
                    },
                    _ => FeatureView::NoFeature,
                },
                eventfd: None,
            };
            &&& a1 == ClientActionView::SendRequest && a2 == ClientActionView::ReadHeader
            &&& b2 == ServerActionView::ReadRequest(request_json.len() as u32)
            &&& b3 == ServerActionView::Agree
            &&& a3 == ClientActionView::ReadResponse(response_json.len() as u32)
            &&& a4 == ClientActionView::Send(announcement(c, false, MSG_VERSION_V4))
            &&& a5 == ClientActionView::ReadHeader
            &&& s4.expects(ServerEvent::Header(h)) && s5.expects(ServerEvent::Body(body))
            &&& b5 == ServerActionView::ReadBody(body@.len() as u32)
            &&& b6 == (ServerActionView::MapFiles { proto: 4 })
            &&& s6.buffer_path == c.buffer_path && s6.queue_path == c.queue_path
            &&& b7 == ServerActionView::Send(ack.0@)
            &&& a6 == ClientActionView::Done(outcome)
            &&& b8 == ServerActionView::Done(outcome)
        }),
{
    negotiation::law_server_selects_what_was_asked(request, c.wakeup, c.platform, platform);
    negotiation::law_both_sides_use_one_feature(request, feature, response, platform);
    lemma_v4_server_answers(platform, request, request_json, asked);
    let s1 = ServerProgress::start().next(platform, ServerEvent::Begin).0;
    let s2 = s1.next(platform, ServerEvent::Header(asked)).0;
    let s3 = s2.next(platform, ServerEvent::Request(request)).0;
    let s4 = s3.next(platform, ServerEvent::Sent).0;
    lemma_v4_file_server(s4, c, platform, h, body);
    lemma_v4_file_client(c, request, response_json, answered, feature, response, ack);
}

/// A server maps the files whose paths it was sent, under the protocol of the exchange and no
/// other, for every protocol; what it tells of them are the paths out of the message.
pub proof fn law_server_maps_the_named_files(
    s: &mut ServerProtocolAdapter,
    proto: u8,
    body: Vec<u8>,
    r: ServerAction,
)
    requires
        old(s).progress().state == (ServerState::AwaitBody { proto, memfd: false }),
        call_ensures(ServerProtocolAdapter::step, (s, ServerEvent::Body(body)), r),
    ensures
        r == (ServerAction::MapFiles { proto }),
        final(s).progress().state == (ServerState::Mapping { proto }),
        final(s).progress().buffer_path == metadata::buffer_path_of(body@),
        final(s).progress().queue_path == metadata::queue_path_of(body@),
{
    reveal(ServerProgress::next);
}

/// The protocol that a server was told of at the start is the one that the session has: whatever
/// the header of the message with the paths is, the protocol does not change on the way to the end.
pub proof fn law_protocol_stays_to_the_end(
    a: &mut ServerProtocolAdapter,
    b: &mut ServerProtocolAdapter,
    c: &mut ServerProtocolAdapter,
    d: &mut ServerProtocolAdapter,
    proto: u8,
    h: Header,
    body: Vec<u8>,
    r: (ServerAction, ServerAction, ServerAction, ServerAction),
)
    requires
        proto == 3 || proto == 4,
        old(a).progress().state == (ServerState::AwaitShm { proto }),
        old(a).progress().eventfd is None,
        h.magic() == 0x7758,
        h.msg_type().0 == EventType::TYPE_SHARE_MEMORY_BY_FILE_PATH,
        h.length() >= 8,
        !(old(a).progress().feature is EventFd),
        call_ensures(ServerProtocolAdapter::step, (a, ServerEvent::Header(h)), r.0),
        *old(b) == *final(a),
        call_ensures(ServerProtocolAdapter::step, (b, ServerEvent::Body(body)), r.1),
        *old(c) == *final(b),
        call_ensures(ServerProtocolAdapter::step, (c, ServerEvent::Mapped), r.2),
        *old(d) == *final(c),
        call_ensures(ServerProtocolAdapter::step, (d, ServerEvent::Sent), r.3),
    ensures
        r.0 == ServerAction::ReadBody((h.length() - 8) as u32),
        r.1 == (ServerAction::MapFiles { proto }),
        r.2 is Send,
        r.2->Send_0@ == header::frame(
            8,
            if proto == 4 {
                0
            } else {
                3
            },
            6,
        ),
        r.3 is Done,
        r.3->Done_0.proto_version == proto,
        r.3->Done_0.msg_version == if proto == 4 {
            0u8
        } else {
            3u8
        },
        r.3->Done_0.eventfd is None,
        proto == 4 ==> r.3->Done_0.view().feature == old(a).progress().feature,
        proto == 3 ==> r.3->Done_0.feature is NoFeature,
{
    reveal(ServerProgress::next);
}

/// By descriptors it is the same: the server says that it is ready, takes as many as come, maps the
/// first for the buffers and the second for the queues under that protocol, and receives on the
/// eventfd that the client sends on.
pub proof fn law_server_maps_the_sent_descriptors(
    a: &mut ServerProtocolAdapter,
    b: &mut ServerProtocolAdapter,
    c: &mut ServerProtocolAdapter,
    d: &mut ServerProtocolAdapter,
    e: &mut ServerProtocolAdapter,
    proto: u8,
    body: Vec<u8>,
    fds: Vec<i32>,
    r: (ServerAction, ServerAction, ServerAction, ServerAction, ServerAction),
)
    requires
        proto == 3 || proto == 4,
        old(a).progress().state == (ServerState::AwaitBody { proto, memfd: true }),
        old(a).progress().eventfd is None,
        proto == 3 ==> old(a).progress().feature is NoFeature,
        call_ensures(ServerProtocolAdapter::step, (a, ServerEvent::Body(body)), r.0),
        *old(b) == *final(a),
        call_ensures(ServerProtocolAdapter::step, (b, ServerEvent::Sent), r.1),
        *old(c) == *final(b),
        call_ensures(ServerProtocolAdapter::step, (c, ServerEvent::Fds(fds)), r.2),
        *old(d) == *final(c),
        call_ensures(ServerProtocolAdapter::step, (d, ServerEvent::Mapped), r.3),
        *old(e) == *final(d),
        call_ensures(ServerProtocolAdapter::step, (e, ServerEvent::Sent), r.4),
    ensures
        r.0 is Send,
        r.0->Send_0@ == header::frame(
            8,
            if proto == 4 {
                0
            } else {
                3
            },
            7,
        ),
        r.1 == ServerAction::RecvFds(
            if old(a).progress().feature is EventFd {
                4
            } else {
                2
            },
        ),
        r.2 == (ServerAction::MapFds { buffer_fd: fds@[0], queue_fd: fds@[1], proto }),
        r.3 is Send,
        r.4 is Done,
        r.4->Done_0.proto_version == proto,
        old(a).progress().feature is EventFd ==> r.4->Done_0.eventfd == Some(
            EventFdPair { wakeup_send: fds@[3], wakeup_recv: fds@[2] },
        ),
        !(old(a).progress().feature is EventFd) ==> r.4->Done_0.eventfd is None,
        final(c).progress().buffer_path == metadata::buffer_path_of(body@),
        final(c).progress().queue_path == metadata::queue_path_of(body@),
{
    reveal(ServerProgress::next);
}

/// A server takes the first message for what its version says: V2 for the paths, V3 for an exchange
/// of versions, none for the negotiation of V4. Any other version, a message of another type and one
/// that is no event is refused by name.
pub proof fn law_first_message_decides(s: &mut ServerProtocolAdapter, h: Header, r: ServerAction)
    requires
        old(s).progress().state == ServerState::AwaitFirst,
        call_ensures(ServerProtocolAdapter::step, (s, ServerEvent::Header(h)), r),
    ensures
        h.magic() != 0x7758 ==> r == ServerAction::Fail(
            InitError::Cause(InitCause::Event(Error::InvalidVersion)),
        ),
        h.magic() == 0x7758 && h.msg_type().0 > 10 ==> r == ServerAction::Fail(
            InitError::Cause(InitCause::Event(Error::InvalidMsgType)),
        ),
        h.magic() == 0x7758 && h.msg_type().0 <= 10 ==> {
            let t = h.msg_type().0;
            let v = h.version();
            &&& v == 2 && t == 0 ==> r == ServerAction::ReadBody((h.length() - 8) as u32)
                && final(s).progress().state == (ServerState::AwaitBody { proto: 2, memfd: false })
            &&& v == 3 && t == 4 ==> r is Send && r->Send_0@ == header::frame(8, 3, 4)
            &&& v == 0 && t == 10 && h.length() >= 8 ==> r == ServerAction::ReadRequest(
                (h.length() - 8) as u32,
            )
            &&& v == 0 && t == 10 && h.length() < 8 ==> r == ServerAction::Fail(
                InitError::Cause(InitCause::BadLength(h.length())),
            )
            &&& v == 1 || v > 3 ==> r == ServerAction::Fail(InitError::UnsupportedVersion(v))
            &&& v == 2 && t != 0 ==> r == ServerAction::Fail(
                InitError::Cause(InitCause::Unexpected { expected: 0, got: t }),
            )
            &&& v == 3 && t != 4 ==> r == ServerAction::Fail(
                InitError::Cause(InitCause::Unexpected { expected: 4, got: t }),
            )
            &&& v == 0 && t != 10 ==> r == ServerAction::Fail(
                InitError::Cause(InitCause::Unexpected { expected: 10, got: t }),
            )
        },
{
    reveal(ServerProgress::next);
}

/// A request that takes V4 is answered with V4 and the feature that the server selected; the server
/// goes on with V4.
pub proof fn law_v4_request_is_answered(
    s: &mut ServerProtocolAdapter,
    t: &mut ServerProtocolAdapter,
    request: NegotiationRequest,
    r: ServerAction,
    q: ServerAction,
)
    requires
        old(s).progress().state == ServerState::AwaitRequest,
        request.supports_protocols@.contains(4),
        call_ensures(ServerProtocolAdapter::step, (s, ServerEvent::Request(request)), r),
        *old(t) == *final(s),
        call_ensures(ServerProtocolAdapter::step, (t, ServerEvent::Sent), q),
    ensures
        r is SendResponse,
        r->SendResponse_0.error is None,
        r->SendResponse_0.selected_protocol == 4,
        r->SendResponse_0.selected(request) == Ok::<FeatureView, NegotiationFailure>(
            final(s).progress().feature,
        ),
        final(s).progress().feature == request.selection(old(s).on()),
        q is ReadHeader,
        final(t).progress().state == (ServerState::AwaitShm { proto: 4 }),
        final(t).progress().feature == final(s).progress().feature,
{
    reveal(ServerProgress::next);
    negotiation::law_answer_carries_the_feature(
        request,
        final(s).chosen(),
        r->SendResponse_0,
    );
    final(s).lemma_chosen();
}

/// A request that does not take V4 and one that is no JSON are refused: the client is told which it
/// is, and only then does the server give up, also where the client did not hear of it.
pub proof fn law_bad_request_is_refused(
    s: &mut ServerProtocolAdapter,
    t: &mut ServerProtocolAdapter,
    u: &mut ServerProtocolAdapter,
    v: &mut ServerProtocolAdapter,
    request: NegotiationRequest,
    why: String,
    heard: ServerEvent,
    r: (ServerAction, ServerAction, ServerAction, ServerAction),
)
    requires
        old(s).progress().state == ServerState::AwaitRequest,
        !request.supports_protocols@.contains(4),
        call_ensures(ServerProtocolAdapter::step, (s, ServerEvent::Request(request)), r.0),
        *old(t) == *final(s),
        call_ensures(ServerProtocolAdapter::step, (t, ServerEvent::Sent), r.1),
        old(u).progress().state == ServerState::AwaitRequest,
        call_ensures(ServerProtocolAdapter::step, (u, ServerEvent::BadJson(why)), r.2),
        *old(v) == *final(u),
        heard is Sent || heard is Failed,
        call_ensures(ServerProtocolAdapter::step, (v, heard), r.3),
    ensures
        r.0 is SendResponse,
        r.0->SendResponse_0.error matches Some(e) && e.code@ == "VERSION_NOT_SUPPORTED"@,
        r.0->SendResponse_0.selected_protocol == 0,
        r.1 == ServerAction::Fail(InitError::ClientWithoutV4),
        r.2 is SendResponse,
        r.2->SendResponse_0.error matches Some(e) && e.code@ == "JSON_PARSE_ERROR"@ && e.message@
            == why@,
        r.3 == ServerAction::Fail(InitError::Cause(InitCause::Json(why))),
{
    reveal(ServerProgress::next);
}

/// Eventfds go with descriptors only, a failed exchange ends the negotiation with what failed, and a
/// message of another type than that with the paths is refused by name.
pub proof fn law_server_refuses_the_unexpected(
    s: &mut ServerProtocolAdapter,
    proto: u8,
    h: Header,
    r: ServerAction,
    t: &mut ServerProtocolAdapter,
    why: String,
    q: ServerAction,
)
    requires
        old(s).progress().state == (ServerState::AwaitShm { proto }),
        call_ensures(ServerProtocolAdapter::step, (s, ServerEvent::Header(h)), r),
        !(old(t).progress().state is BadJsonSent),
        call_ensures(ServerProtocolAdapter::step, (t, ServerEvent::Failed(why)), q),
    ensures
        h.magic() != 0x7758 ==> r == ServerAction::Fail(
            InitError::Cause(InitCause::Event(Error::InvalidVersion)),
        ),
        h.magic() == 0x7758 && h.msg_type().0 <= 10 && old(s).progress().feature is EventFd
            && h.msg_type().0 != 5 ==> r == ServerAction::Fail(InitError::EventFdWithoutMemfd),
        h.magic() == 0x7758 && h.msg_type().0 <= 10 && !(old(s).progress().feature is EventFd)
            && h.msg_type().0 != 5 && h.msg_type().0 != 0 ==> r == ServerAction::Fail(
            InitError::Cause(InitCause::Unexpected { expected: 0, got: h.msg_type().0 }),
        ),
        h.magic() == 0x7758 && h.msg_type().0 == 5 ==> r == ServerAction::ReadBody(
            (h.length() - 8) as u32,
        ) && final(s).progress().state == (ServerState::AwaitBody { proto, memfd: true }),
        q == ServerAction::Fail(InitError::Cause(InitCause::Io(why))),
        final(t).progress().state == ServerState::Finished,
{
    reveal(ServerProgress::next);
}

/// A client without V4 that has its memory in files sends the paths under V2 and is done once they
/// are out. One with descriptors asks for the server's version first.
pub proof fn law_legacy_client_begins(
    c: &mut ClientProtocolAdapter,
    d: &mut ClientProtocolAdapter,
    r: ClientAction,
    q: ClientAction,
)
    requires
        old(c).progress() == client_start(),
        old(c).params().mode is Legacy,
        call_ensures(ClientProtocolAdapter::step, (c, ClientEvent::Begin), r),
        *old(d) == *final(c),
        call_ensures(ClientProtocolAdapter::step, (d, ClientEvent::Sent), q),
    ensures
        r is Send,
        old(c).params().mem_map_type is MemMapTypeDevShmFile ==> r->Send_0@ == metadata::metadata(
            0,
            old(c).params().buffer_path,
            old(c).params().queue_path,
            2,
        ) && q is Done && q->Done_0.view() == legacy_outcome(2),
        old(c).params().mem_map_type is MemMapTypeMemFd ==> r->Send_0@ == header::frame(8, 3, 4)
            && q is ReadHeader,
{
    reveal(ClientParams::next);
}

/// A client with descriptors takes the older of the two versions: V2 with the paths of files where
/// the server has nothing newer, V3 with descriptors otherwise. A version below that is refused.
pub proof fn law_client_takes_the_older_version(
    c: &mut ClientProtocolAdapter,
    h: Header,
    r: ClientAction,
)
    requires
        old(c).progress().state == ClientState::AwaitVersion,
        old(c).params().mem_map_type is MemMapTypeMemFd,
        call_ensures(ClientProtocolAdapter::step, (c, ClientEvent::Header(h)), r),
    ensures
        h.magic() == 0x7758 && h.msg_type().0 == 4 ==> {
            let (b, q) = (old(c).params().buffer_path, old(c).params().queue_path);
            &&& h.version() == 2 ==> r is Send && r->Send_0@ == metadata::metadata(0, b, q, 2)
            &&& h.version() >= 3 ==> r is Send && r->Send_0@ == metadata::metadata(5, b, q, 3)
            &&& h.version() < 2 ==> r == ClientAction::Fail(
                InitError::UnsupportedVersion(h.version()),
            )
        },
        h.magic() == 0x7758 && h.msg_type().0 <= 10 && h.msg_type().0 != 4 ==> r
            == ClientAction::Fail(
            InitError::Cause(InitCause::Unexpected { expected: 4, got: h.msg_type().0 }),
        ),
        h.magic() != 0x7758 ==> r == ClientAction::Fail(
            InitError::Cause(InitCause::Event(Error::InvalidVersion)),
        ),
{
    reveal(ClientParams::next);
}

/// What fails while a client negotiates V4 is a failure of the network or the protocol, after which
/// an older protocol may be tried; what fails outside of that is not.
pub proof fn law_client_names_the_failure(
    c: &mut ClientProtocolAdapter,
    why: String,
    r: ClientAction,
)
    requires
        !(old(c).progress().state is Start),
        !(old(c).progress().state is Finished),
        call_ensures(ClientProtocolAdapter::step, (c, ClientEvent::Failed(why)), r),
    ensures
        ({
            let s = old(c).progress().state;
            r == ClientAction::Fail(
                if s is RequestSent || s is AwaitResponseHeader || s is AwaitResponse {
                    InitError::V4(
                        V4ClientInitError::NetworkOrProtocol { source: InitCause::Io(why) },
                    )
                } else {
                    InitError::Cause(InitCause::Io(why))
                },
            )
        }),
        final(c).progress().state == ClientState::Finished,
{
    reveal(ClientParams::next);
}

/// A client takes an answer that refuses, that selects another protocol or that makes no sense for
/// what it is and goes no further; only a header that is not the one of an answer counts as a
/// failure of the protocol.
pub proof fn law_client_reads_the_answer(
    c: &mut ClientProtocolAdapter,
    response: NegotiationResponse,
    r: ClientAction,
    d: &mut ClientProtocolAdapter,
    why: String,
    q: ClientAction,
    e: &mut ClientProtocolAdapter,
    h: Header,
    p: ClientAction,
)
    requires
        old(c).progress().state == ClientState::AwaitResponse,
        old(c).asked() is Some,
        call_ensures(ClientProtocolAdapter::step, (c, ClientEvent::Response(response)), r),
        old(d).progress().state == ClientState::AwaitResponse,
        call_ensures(ClientProtocolAdapter::step, (d, ClientEvent::BadJson(why)), q),
        old(e).progress().state == ClientState::AwaitResponseHeader,
        call_ensures(ClientProtocolAdapter::step, (e, ClientEvent::Header(h)), p),
    ensures
        response.error matches Some(x) ==> r == ClientAction::Fail(
            InitError::V4(V4ClientInitError::Rejected(x)),
        ),
        response.error is None && response.selected_protocol != 4 ==> r == ClientAction::Fail(
            InitError::V4(V4ClientInitError::UnsupportedProtocol(response.selected_protocol)),
        ),
        response.error is None && response.selected_protocol == 4 ==> match response.selected(
            old(c).asked()->0,
        ) {
            Err(x) => r == ClientAction::Fail(
                InitError::V4(
                    V4ClientInitError::InvalidResponse { source: InitCause::Settings(x) },
                ),
            ),
            Ok(f) => {
                &&& final(c).progress().feature == f
                &&& f is EventFd ==> r is CreateEventFds
                &&& !(f is EventFd) ==> r is Send && r->Send_0@ == metadata::metadata(
                    if old(c).params().mem_map_type is MemMapTypeMemFd {
                        5
                    } else {
                        0
                    },
                    old(c).params().buffer_path,
                    old(c).params().queue_path,
                    0,
                )
            },
        },
        q == ClientAction::Fail(
            InitError::V4(V4ClientInitError::InvalidResponse { source: InitCause::Json(why) }),
        ),
        h.magic() == 0x7758 && h.msg_type().0 == 10 && h.length() >= 8 ==> p
            == ClientAction::ReadResponse((h.length() - 8) as u32),
        h.magic() != 0x7758 || h.msg_type().0 != 10 || h.length() < 8 ==> p is Fail
            && p->Fail_0 is V4 && p->Fail_0->V4_0 is NetworkOrProtocol,
{
    reveal(ClientParams::next);
}

/// A client sends its descriptors once the server is ready for them, with those of the eventfds
/// behind them where there are any, and is done once the server says that it mapped the memory. A
/// message of another type at either place is refused by name.
pub proof fn law_client_sends_descriptors(
    c: &mut ClientProtocolAdapter,
    d: &mut ClientProtocolAdapter,
    e: &mut ClientProtocolAdapter,
    proto: u8,
    ready: Header,
    ack: Header,
    r: (ClientAction, ClientAction, ClientAction),
)
    requires
        proto == 3 || proto == 4,
        old(c).progress().state == (ClientState::AwaitReady { proto }),
        call_ensures(ClientProtocolAdapter::step, (c, ClientEvent::Header(ready)), r.0),
        *old(d) == *final(c),
        ready.magic() == 0x7758,
        ready.msg_type().0 == 7,
        call_ensures(ClientProtocolAdapter::step, (d, ClientEvent::Sent), r.1),
        *old(e) == *final(d),
        ack.magic() == 0x7758,
        call_ensures(ClientProtocolAdapter::step, (e, ClientEvent::Header(ack)), r.2),
    ensures
        r.0 is SendFds,
        old(c).progress().eventfd is None ==> r.0->SendFds_0@ == seq![
            old(c).params().buffer_fd,
            old(c).params().queue_fd,
        ],
        old(c).progress().eventfd matches Some(p) ==> r.0->SendFds_0@ == seq![
            old(c).params().buffer_fd,
            old(c).params().queue_fd,
            p.wakeup_send,
            p.wakeup_recv,
        ],
        r.1 is ReadHeader,
        ack.msg_type().0 == 6 ==> r.2 is Done && r.2->Done_0.proto_version == proto
            && r.2->Done_0.msg_version == if proto == 4 {
            0u8
        } else {
            3u8
        },
        ack.msg_type().0 == 6 && proto == 4 ==> r.2->Done_0.eventfd == old(c).progress().eventfd
            && r.2->Done_0.view().feature == old(c).progress().feature,
        ack.msg_type().0 <= 10 && ack.msg_type().0 != 6 ==> r.2 == ClientAction::Fail(
            InitError::Cause(InitCause::Unexpected { expected: 6, got: ack.msg_type().0 }),
        ),
{
    reveal(ClientParams::next);
}

/// A client with eventfds sends the paths once it has them, and the eventfds that it has are the
/// ones it was given.
pub proof fn law_client_takes_its_eventfds(
    c: &mut ClientProtocolAdapter,
    made: EventFdPair,
    r: ClientAction,
)
    requires
        old(c).progress().state == ClientState::AwaitEventFds,
        old(c).params().mem_map_type is MemMapTypeMemFd,
        call_ensures(ClientProtocolAdapter::step, (c, ClientEvent::EventFds(made)), r),
    ensures
        final(c).progress().eventfd == Some(made),
        final(c).progress().feature == old(c).progress().feature,
        r is Send,
        r->Send_0@ == metadata::metadata(
            5,
            old(c).params().buffer_path,
            old(c).params().queue_path,
            0,
        ),
{
    reveal(ClientParams::next);
}

/// A client that asks for V4 sends its request first and reads the answer then. It gives up before
/// only where what it is configured for cannot be asked for.
pub proof fn law_v4_client_begins(
    c: &mut ClientProtocolAdapter,
    d: &mut ClientProtocolAdapter,
    r: ClientAction,
    q: ClientAction,
)
    requires
        old(c).progress() == client_start(),
        old(c).params().mode is V4,
        call_ensures(ClientProtocolAdapter::step, (c, ClientEvent::Begin), r),
        *old(d) == *final(c),
        r is SendRequest ==> call_ensures(ClientProtocolAdapter::step, (d, ClientEvent::Sent), q),
    ensures
        r is SendRequest || r is Fail,
        old(c).params().wakeup is Default ==> r is SendRequest,
        old(c).params().wakeup is EventFd ==> (r is SendRequest <==> old(c).params().platform.linux),
        old(c).params().wakeup matches WakeupMode::EventQueuePolling { interval } ==> (
        r is SendRequest <==> 1000 <= outside::duration_nanos(interval) < 1000 * (u64::MAX + 1)),
        r is SendRequest ==> final(c).asked() is Some && final(c).asked()->0.supports_protocols@.contains(
            4,
        ),
        r is SendRequest ==> q is ReadHeader,
        r is Fail ==> r->Fail_0 is Cause && r->Fail_0->Cause_0 is Settings,
{
    reveal(ClientParams::next);
    if r is SendRequest {
        assert(final(c).asked()->0.supports_protocols@[0] == 4);
    }
}

/// Once the paths are out a client with descriptors waits until the server is ready for them, one
/// with files waits until the server mapped them, and one with files under V2 waits for nothing.
pub proof fn law_client_waits_for_the_server(
    c: &mut ClientProtocolAdapter,
    proto: u8,
    memfd: bool,
    r: ClientAction,
    d: &mut ClientProtocolAdapter,
    h: Header,
    q: ClientAction,
)
    requires
        old(c).progress().state == (ClientState::MetadataSent { proto, memfd }),
        call_ensures(ClientProtocolAdapter::step, (c, ClientEvent::Sent), r),
        old(d).progress().state == (ClientState::AwaitReady { proto }),
        call_ensures(ClientProtocolAdapter::step, (d, ClientEvent::Header(h)), q),
    ensures
        memfd ==> r is ReadHeader && final(c).progress().state == (ClientState::AwaitReady { proto }),
        !memfd && proto != 2 ==> r is ReadHeader && final(c).progress().state
            == (ClientState::AwaitAck { proto }),
        !memfd && proto == 2 ==> r is Done && r->Done_0.proto_version == 2
            && r->Done_0.msg_version == 2 && r->Done_0.feature is NoFeature
            && r->Done_0.eventfd is None,
        final(c).progress().feature == old(c).progress().feature,
        final(c).progress().eventfd == old(c).progress().eventfd,
        h.magic() == 0x7758 && h.msg_type().0 <= 10 && h.msg_type().0 != 7 ==> q
            == ClientAction::Fail(
            InitError::Cause(InitCause::Unexpected { expected: 7, got: h.msg_type().0 }),
        ),
{
    reveal(ClientParams::next);
}

/// A server reads first. After an exchange of versions it goes on with V3, and under V2 it is done
/// with nothing more to send once the files are mapped.
pub proof fn law_server_goes_on(
    a: &mut ServerProtocolAdapter,
    b: &mut ServerProtocolAdapter,
    c: &mut ServerProtocolAdapter,
    r: (ServerAction, ServerAction, ServerAction),
)
    requires
        old(a).progress() == ServerProgress::start(),
        call_ensures(ServerProtocolAdapter::step, (a, ServerEvent::Begin), r.0),
        old(b).progress().state == ServerState::ExchangeSent,
        call_ensures(ServerProtocolAdapter::step, (b, ServerEvent::Sent), r.1),
        old(c).progress().state == (ServerState::Mapping { proto: 2 }),
        call_ensures(ServerProtocolAdapter::step, (c, ServerEvent::Mapped), r.2),
    ensures
        r.0 is ReadHeader,
        final(a).progress().state == ServerState::AwaitFirst,
        r.1 is ReadHeader,
        final(b).progress().state == (ServerState::AwaitShm { proto: 3 }),
        r.2 is Done,
        r.2->Done_0.proto_version == 2 && r.2->Done_0.msg_version == 2,
        r.2->Done_0.feature is NoFeature && r.2->Done_0.eventfd is None,
{
    reveal(ServerProgress::next);
}

/// A client waits for what comes of its last action, and for nothing else. At the end it waits for
/// nothing.
pub proof fn law_client_expects_what_it_asked_for(
    c: &mut ClientProtocolAdapter,
    event: ClientEvent,
    r: ClientAction,
    next: ClientEvent,
    expected: bool,
)
    requires
        call_ensures(ClientProtocolAdapter::expects, (&*old(c), &event), true),
        call_ensures(ClientProtocolAdapter::step, (c, event), r),
        call_ensures(ClientProtocolAdapter::expects, (&*final(c), &next), expected),
    ensures
        r is Done || r is Fail ==> !expected,
        !(r is Done || r is Fail) && next is Failed ==> expected,
        next is Begin ==> !expected,
        next is Sent ==> (expected <==> r is Send || r is SendRequest || r is SendFds),
        next is Header ==> (expected <==> r is ReadHeader),
        next is Response || next is BadJson ==> (expected <==> r is ReadResponse),
        next is EventFds ==> (expected <==> r is CreateEventFds),
{
    reveal(ClientParams::next);
}

/// A server waits for what comes of its last action, and for nothing else. At the end it waits for
/// nothing.
pub proof fn law_server_expects_what_it_asked_for(
    s: &mut ServerProtocolAdapter,
    event: ServerEvent,
    r: ServerAction,
    next: ServerEvent,
    expected: bool,
)
    requires
        call_ensures(ServerProtocolAdapter::expects, (&*old(s), &event), true),
        call_ensures(ServerProtocolAdapter::step, (s, event), r),
        call_ensures(ServerProtocolAdapter::expects, (&*final(s), &next), expected),
    ensures
        r is Done || r is Fail ==> !expected,
        !(r is Done || r is Fail) && next is Failed ==> expected,
        next is Begin ==> !expected,
        next is Sent ==> (expected <==> r is Send || r is SendResponse),
        next matches ServerEvent::Header(h) ==> (expected ==> r is ReadHeader),
        next matches ServerEvent::Header(h) ==> (r is ReadHeader && h.length() >= 8 ==> expected),
        next is Request || next is BadJson ==> (expected <==> r is ReadRequest),
        next is Body && expected ==> r is ReadBody,
        next is Fds && expected ==> r is RecvFds,
        next matches ServerEvent::Fds(f) ==> (r matches ServerAction::RecvFds(n) ==> (expected
            <==> f@.len() >= n)),
        next is Mapped ==> (expected <==> r is MapFiles || r is MapFds),
{
    reveal(ServerProgress::next);
}

} // verus!
