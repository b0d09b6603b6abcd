//! How a server sets up a session, one exchange after the other.
//!
//! The adapter decides and never talks: each step takes what came of the last action and gives
//! the next one.

use vstd::prelude::*;

use crate::config::Platform;
use crate::consts::{
    HEADER_SIZE, MAX_LEGACY_PROTO_VERSION, MEMFD_COUNT, MEMFD_COUNT_EVENTFD,
};
use crate::protocol::event;
use crate::protocol::event::{check_event_valid, EventType};
use crate::protocol::header;
use crate::protocol::header::Header;
use crate::protocol::initializer;
use crate::protocol::initializer::{
    EventFdPair, InitCause, InitError, InitializedView, ProtocolInitialized,
};
use crate::protocol::metadata;
use crate::protocol::negotiation;
use crate::protocol::negotiation::{
    select_feature_on, FeatureView, NegotiatedFeature, NegotiationRequest, NegotiationResponse,
    MSG_VERSION_V4, PROTO_VERSION_V4,
};

verus! {

/// What the server waits for. `proto` is the protocol that the session will have.
#[derive(Clone, Copy, Debug, PartialEq, Eq, Structural)]
pub enum ServerState {
    Start,
    /// The first header is being read.
    AwaitFirst,
    /// The version is being sent.
    ExchangeSent,
    /// The request for V4 is being read.
    AwaitRequest,
    /// The refusal of a request that is no JSON is being sent.
    BadJsonSent,
    /// The refusal of a client without V4 is being sent.
    NoV4Sent,
    /// The answer is being sent.
    ResponseSent,
    /// The header of the message with the paths is being read.
    AwaitShm { proto: u8 },
    /// The paths are being read.
    AwaitBody { proto: u8, memfd: bool },
    /// The client is being told to send the descriptors.
    ReadySent { proto: u8 },
    /// The descriptors are being read.
    AwaitFds { proto: u8 },
    /// The shared memory is being mapped.
    Mapping { proto: u8 },
    /// The client is being told that the shared memory is mapped.
    AckSent { proto: u8 },
    Finished,
}

/// What came of an action.
#[derive(Debug)]
pub enum ServerEvent {
    /// Nothing was done yet.
    Begin,
    /// The message went out.
    Sent,
    /// A header came in.
    Header(Header),
    /// The body of a message came in.
    Body(Vec<u8>),
    /// The request came in.
    Request(NegotiationRequest),
    /// The request came in and is no JSON of a request.
    BadJson(String),
    /// The descriptors came in.
    Fds(Vec<i32>),
    /// The shared memory is mapped.
    Mapped,
    /// The action failed.
    Failed(String),
}

/// What to do next.
#[derive(Debug)]
pub enum ServerAction {
    ReadHeader,
    /// Read so many bytes.
    ReadBody(u32),
    /// Read so many bytes and take them for the JSON of a request.
    ReadRequest(u32),
    Send(Vec<u8>),
    /// Send the answer as a message of the negotiation.
    SendResponse(NegotiationResponse),
    /// Take so many descriptors.
    RecvFds(usize),
    /// Map the files at the adapter's paths.
    MapFiles { proto: u8 },
    /// Map the descriptors.
    MapFds { buffer_fd: i32, queue_fd: i32, proto: u8 },
    Done(ProtocolInitialized),
    Fail(InitError),
}

pub enum ServerActionView {
    ReadHeader,
    ReadBody(u32),
    ReadRequest(u32),
    Send(Seq<u8>),
    /// The answer that agrees to the feature that was selected.
    Agree,
    /// The refusal of a request that is no JSON.
    RefuseJson(Seq<char>),
    /// The refusal of a client without V4.
    RefuseVersion,
    RecvFds(usize),
    MapFiles { proto: u8 },
    MapFds { buffer_fd: i32, queue_fd: i32, proto: u8 },
    Done(InitializedView),
    Fail(InitError),
}

impl ServerAction {
    /// The action is the one that `v` stands for.
    pub open spec fn is_action(self, v: ServerActionView, feature: NegotiatedFeature) -> bool {
        match v {
            ServerActionView::ReadHeader => self is ReadHeader,
            ServerActionView::ReadBody(n) => self == ServerAction::ReadBody(n),
            ServerActionView::ReadRequest(n) => self == ServerAction::ReadRequest(n),
            ServerActionView::Send(b) => self is Send && self->Send_0@ == b,
            ServerActionView::Agree => self is SendResponse && self->SendResponse_0.agrees(feature),
            ServerActionView::RefuseJson(m) => self is SendResponse
                && self->SendResponse_0.refuses(negotiation::ERROR_JSON_PARSE@, m),
            ServerActionView::RefuseVersion => self is SendResponse
                && self->SendResponse_0.refuses(
                negotiation::ERROR_VERSION_NOT_SUPPORTED@,
                "protocol version is not supported"@,
            ),
            ServerActionView::RecvFds(n) => self == ServerAction::RecvFds(n),
            ServerActionView::MapFiles { proto } => self == (ServerAction::MapFiles { proto }),
            ServerActionView::MapFds { buffer_fd, queue_fd, proto } => self == (
            ServerAction::MapFds { buffer_fd, queue_fd, proto }),
            ServerActionView::Done(i) => self is Done && self->Done_0.view() == i,
            ServerActionView::Fail(e) => self == ServerAction::Fail(e),
        }
    }
}

/// How far a server is.
pub struct ServerProgress {
    pub state: ServerState,
    pub feature: FeatureView,
    pub eventfd: Option<EventFdPair>,
    pub buffer_path: Seq<u8>,
    pub queue_path: Seq<u8>,
    /// Why the request is no JSON.
    pub bad_json: Option<String>,
}

impl ServerProgress {
    /// A server that has not begun.
    pub open spec fn start() -> Self {
        ServerProgress {
            state: ServerState::Start,
            feature: FeatureView::NoFeature,
            eventfd: None,
            buffer_path: Seq::empty(),
            queue_path: Seq::empty(),
            bad_json: None,
        }
    }

    /// How many descriptors come with the paths.
    pub open spec fn fd_count(self) -> usize {
        if self.feature is EventFd {
            MEMFD_COUNT_EVENTFD
        } else {
            MEMFD_COUNT
        }
    }

    /// The header announces a body, if it is one that is followed by a body.
    pub open spec fn long_enough(h: Header) -> bool {
        event::event_check(h) is Ok && (h.msg_type().0 == EventType::TYPE_SHARE_MEMORY_BY_FILE_PATH
            || h.msg_type().0 == EventType::TYPE_SHARE_MEMORY_BY_MEMFD) ==> h.length()
            >= HEADER_SIZE
    }

    /// The event belongs to what is waited for, and what came in is not cut short.
    pub open spec fn expects(self, event: ServerEvent) -> bool {
        match self.state {
            ServerState::Start => event is Begin,
            ServerState::AwaitFirst | ServerState::AwaitShm { .. } => match event {
                ServerEvent::Header(h) => Self::long_enough(h),
                _ => event is Failed,
            },
            ServerState::ExchangeSent
            | ServerState::BadJsonSent
            | ServerState::NoV4Sent
            | ServerState::ResponseSent
            | ServerState::ReadySent { .. }
            | ServerState::AckSent { .. } => event is Sent || event is Failed,
            ServerState::AwaitRequest => event is Request || event is BadJson || event is Failed,
            ServerState::AwaitBody { .. } => match event {
                ServerEvent::Body(b) => metadata::has_metadata(b@),
                _ => event is Failed,
            },
            ServerState::AwaitFds { .. } => match event {
                ServerEvent::Fds(f) => f@.len() >= self.fd_count(),
                _ => event is Failed,
            },
            ServerState::Mapping { .. } => event is Mapped || event is Failed,
            ServerState::Finished => false,
        }
    }

    pub open spec fn go(self, state: ServerState, action: ServerActionView) -> (
        ServerProgress,
        ServerActionView,
    ) {
        (ServerProgress { state, ..self }, action)
    }

    pub open spec fn fail(self, e: InitError) -> (ServerProgress, ServerActionView) {
        self.go(ServerState::Finished, ServerActionView::Fail(e))
    }

    pub open spec fn unexpected(self, expected: u8, h: Header) -> (
        ServerProgress,
        ServerActionView,
    ) {
        self.fail(InitError::Cause(InitCause::Unexpected { expected, got: h.msg_type().0 }))
    }

    /// The action after the first header: its version is the protocol, and V4 writes none.
    pub open spec fn on_first(self, h: Header) -> (ServerProgress, ServerActionView) {
        match event::event_check(h) {
            Err(e) => self.fail(InitError::Cause(InitCause::Event(e))),
            Ok(_) => if h.version() == 2 {
                if h.msg_type().0 != EventType::TYPE_SHARE_MEMORY_BY_FILE_PATH {
                    self.unexpected(EventType::TYPE_SHARE_MEMORY_BY_FILE_PATH, h)
                } else {
                    self.go(
                        ServerState::AwaitBody { proto: 2, memfd: false },
                        ServerActionView::ReadBody((h.length() - HEADER_SIZE) as u32),
                    )
                }
            } else if h.version() == 3 {
                if h.msg_type().0 != EventType::TYPE_EXCHANGE_PROTO_VERSION {
                    self.unexpected(EventType::TYPE_EXCHANGE_PROTO_VERSION, h)
                } else {
                    self.go(
                        ServerState::ExchangeSent,
                        ServerActionView::Send(
                            header::frame(
                                HEADER_SIZE as u32,
                                MAX_LEGACY_PROTO_VERSION,
                                EventType::TYPE_EXCHANGE_PROTO_VERSION,
                            ),
                        ),
                    )
                }
            } else if h.version() == MSG_VERSION_V4 {
                if h.msg_type().0 != EventType::TYPE_NEGOTIATION {
                    self.unexpected(EventType::TYPE_NEGOTIATION, h)
                } else if h.length() < HEADER_SIZE {
                    self.fail(InitError::Cause(InitCause::BadLength(h.length())))
                } else {
                    self.go(
                        ServerState::AwaitRequest,
                        ServerActionView::ReadRequest((h.length() - HEADER_SIZE) as u32),
                    )
                }
            } else {
                self.fail(InitError::UnsupportedVersion(h.version()))
            },
        }
    }

    /// The action after the request came in.
    pub open spec fn on_request(self, platform: Platform, q: NegotiationRequest) -> (
        ServerProgress,
        ServerActionView,
    ) {
        if !q.takes_v4() {
            self.go(ServerState::NoV4Sent, ServerActionView::RefuseVersion)
        } else {
            (
                ServerProgress {
                    state: ServerState::ResponseSent,
                    feature: q.selection(platform),
                    ..self
                },
                ServerActionView::Agree,
            )
        }
    }

    /// The action after the header of the message with the paths came in.
    pub open spec fn on_shm(self, proto: u8, h: Header) -> (ServerProgress, ServerActionView) {
        match event::event_check(h) {
            Err(e) => self.fail(InitError::Cause(InitCause::Event(e))),
            Ok(_) => {
                let t = h.msg_type().0;
                if self.feature is EventFd && t != EventType::TYPE_SHARE_MEMORY_BY_MEMFD {
                    self.fail(InitError::EventFdWithoutMemfd)
                } else if t == EventType::TYPE_SHARE_MEMORY_BY_FILE_PATH || t
                    == EventType::TYPE_SHARE_MEMORY_BY_MEMFD {
                    self.go(
                        ServerState::AwaitBody {
                            proto,
                            memfd: t == EventType::TYPE_SHARE_MEMORY_BY_MEMFD,
                        },
                        ServerActionView::ReadBody((h.length() - HEADER_SIZE) as u32),
                    )
                } else {
                    self.unexpected(EventType::TYPE_SHARE_MEMORY_BY_FILE_PATH, h)
                }
            },
        }
    }

    /// The action after the paths came in.
    pub open spec fn on_body(self, proto: u8, memfd: bool, body: Seq<u8>) -> (
        ServerProgress,
        ServerActionView,
    ) {
        let p = ServerProgress {
            buffer_path: metadata::buffer_path_of(body),
            queue_path: metadata::queue_path_of(body),
            ..self
        };
        if memfd {
            p.go(
                ServerState::ReadySent { proto },
                ServerActionView::Send(
                    header::frame(
                        HEADER_SIZE as u32,
                        initializer::msg_version(proto),
                        EventType::TYPE_ACK_READY_RECV_FD,
                    ),
                ),
            )
        } else {
            p.go(ServerState::Mapping { proto }, ServerActionView::MapFiles { proto })
        }
    }

    /// The action after the descriptors came in. What the client sends on, the server receives on.
    pub open spec fn on_fds(self, proto: u8, fds: Seq<i32>) -> (ServerProgress, ServerActionView) {
        let p = ServerProgress {
            eventfd: if self.feature is EventFd {
                Some(EventFdPair { wakeup_send: fds[3], wakeup_recv: fds[2] })
            } else {
                self.eventfd
            },
            ..self
        };
        p.go(
            ServerState::Mapping { proto },
            ServerActionView::MapFds { buffer_fd: fds[0], queue_fd: fds[1], proto },
        )
    }

    /// The session is there.
    pub open spec fn done(self, proto: u8) -> (ServerProgress, ServerActionView) {
        self.go(
            ServerState::Finished,
            ServerActionView::Done(
                if proto == PROTO_VERSION_V4 {
                    InitializedView {
                        proto_version: proto,
                        msg_version: initializer::msg_version(proto),
                        feature: self.feature,
                        eventfd: self.eventfd,
                    }
                } else {
                    InitializedView {
                        proto_version: proto,
                        msg_version: proto,
                        feature: FeatureView::NoFeature,
                        eventfd: None,
                    }
                },
            ),
        )
    }

    /// The next action.
    #[verifier::opaque]
    pub open spec fn next(self, platform: Platform, event: ServerEvent) -> (
        ServerProgress,
        ServerActionView,
    ) {
        if event is Failed && !(self.state is BadJsonSent) {
            self.fail(InitError::Cause(InitCause::Io(event->Failed_0)))
        } else {
            match self.state {
                ServerState::Start => self.go(
                    ServerState::AwaitFirst,
                    ServerActionView::ReadHeader,
                ),
                ServerState::AwaitFirst => self.on_first(event->Header_0),
                ServerState::ExchangeSent => self.go(
                    ServerState::AwaitShm { proto: 3 },
                    ServerActionView::ReadHeader,
                ),
                ServerState::AwaitRequest => match event {
                    ServerEvent::BadJson(e) => (
                        ServerProgress {
                            state: ServerState::BadJsonSent,
                            bad_json: Some(e),
                            ..self
                        },
                        ServerActionView::RefuseJson(e@),
                    ),
                    _ => self.on_request(platform, event->Request_0),
                },
                ServerState::BadJsonSent => self.fail(
                    InitError::Cause(InitCause::Json(self.bad_json->0)),
                ),
                ServerState::NoV4Sent => self.fail(InitError::ClientWithoutV4),
                ServerState::ResponseSent => self.go(
                    ServerState::AwaitShm { proto: PROTO_VERSION_V4 },
                    ServerActionView::ReadHeader,
                ),
                ServerState::AwaitShm { proto } => self.on_shm(proto, event->Header_0),
                ServerState::AwaitBody { proto, memfd } => self.on_body(
                    proto,
                    memfd,
                    event->Body_0@,
                ),
                ServerState::ReadySent { proto } => self.go(
                    ServerState::AwaitFds { proto },
                    ServerActionView::RecvFds(self.fd_count()),
                ),
                ServerState::AwaitFds { proto } => self.on_fds(proto, event->Fds_0@),
                ServerState::Mapping { proto } => if proto == 2 {
                    self.done(2)
                } else {
                    self.go(
                        ServerState::AckSent { proto },
                        ServerActionView::Send(
                            header::frame(
                                HEADER_SIZE as u32,
                                initializer::msg_version(proto),
                                EventType::TYPE_ACK_SHARE_MEMORY,
                            ),
                        ),
                    )
                },
                ServerState::AckSent { proto } => self.done(proto),
                ServerState::Finished => (self, ServerActionView::ReadHeader),
            }
        }
    }
}

/// A server that sets up a session.
pub struct ServerProtocolAdapter {
    platform: Platform,
    state: ServerState,
    feature: NegotiatedFeature,
    eventfd: Option<EventFdPair>,
    buffer_path: Vec<u8>,
    queue_path: Vec<u8>,
    bad_json: Option<String>,
}

impl ServerProtocolAdapter {
    pub closed spec fn on(self) -> Platform {
        self.platform
    }

    pub closed spec fn chosen(self) -> NegotiatedFeature {
        self.feature
    }

    /// What was selected is what the progress tells.
    pub proof fn lemma_chosen(self)
        ensures
            self.chosen().view() == self.progress().feature,
    {
    }

    pub closed spec fn progress(self) -> ServerProgress {
        ServerProgress {
            state: self.state,
            feature: self.feature.view(),
            eventfd: self.eventfd,
            buffer_path: self.buffer_path@,
            queue_path: self.queue_path@,
            bad_json: self.bad_json,
        }
    }

    /// Whoever refuses a request that is no JSON knows why.
    pub open spec fn wf(self) -> bool {
        self.progress().state is BadJsonSent ==> self.progress().bad_json is Some
    }

    /// A server that has not begun.
    pub fn new(platform: Platform) -> (r: Self)
        ensures
            r.on() == platform,
            r.progress() == ServerProgress::start(),
            r.wf(),
    {
        let r = ServerProtocolAdapter {
            platform,
            state: ServerState::Start,
            feature: NegotiatedFeature::NoFeature,
            eventfd: None,
            buffer_path: Vec::new(),
            queue_path: Vec::new(),
            bad_json: None,
        };
        assert(r.progress() == ServerProgress::start());
        r
    }

    /// The path of the buffer region that the client named.
    pub fn buffer_path(&self) -> (r: &Vec<u8>)
        ensures
            r@ == self.progress().buffer_path,
    {
        &self.buffer_path
    }

    /// The path of the queue region that the client named.
    pub fn queue_path(&self) -> (r: &Vec<u8>)
        ensures
            r@ == self.progress().queue_path,
    {
        &self.queue_path
    }

    fn go(&mut self, state: ServerState, action: ServerAction) -> (r: ServerAction)
        requires
            !(state is BadJsonSent),
        ensures
            r == action,
            final(self).wf(),
            final(self).on() == old(self).on(),
            final(self).chosen() == old(self).chosen(),
            final(self).progress() == (ServerProgress { state, ..old(self).progress() }),
    {
        self.state = state;
        action
    }

    fn fail(&mut self, e: InitError) -> (r: ServerAction)
        ensures
            r == ServerAction::Fail(e),
            final(self).wf(),
            final(self).on() == old(self).on(),
            final(self).progress() == (ServerProgress {
                state: ServerState::Finished,
                ..old(self).progress()
            }),
    {
        self.go(ServerState::Finished, ServerAction::Fail(e))
    }

    fn on_first(&mut self, h: Header) -> (r: ServerAction)
        requires
            ServerProgress::long_enough(h),
        ensures
            final(self).wf(),
            final(self).on() == old(self).on(),
            final(self).progress() == old(self).progress().on_first(h).0,
            r.is_action(old(self).progress().on_first(h).1, final(self).chosen()),
    {
        if let Err(e) = check_event_valid(&h) {
            return self.fail(InitError::Cause(InitCause::Event(e)));
        }
        let got: u8 = h.msg_type().inner();
        match h.version() {
            2 => {
                if got != EventType::TYPE_SHARE_MEMORY_BY_FILE_PATH {
                    return self.fail(
                        InitError::Cause(
                            InitCause::Unexpected {
                                expected: EventType::TYPE_SHARE_MEMORY_BY_FILE_PATH,
                                got,
                            },
                        ),
                    );
                }
                let n: u32 = h.length() - 8;
                self.go(
                    ServerState::AwaitBody { proto: 2, memfd: false },
                    ServerAction::ReadBody(n),
                )
            },
            3 => {
                if got != EventType::TYPE_EXCHANGE_PROTO_VERSION {
                    return self.fail(
                        InitError::Cause(
                            InitCause::Unexpected {
                                expected: EventType::TYPE_EXCHANGE_PROTO_VERSION,
                                got,
                            },
                        ),
                    );
                }
                let event: Vec<u8> = header::bare_event(
                    MAX_LEGACY_PROTO_VERSION,
                    EventType(EventType::TYPE_EXCHANGE_PROTO_VERSION),
                );
                self.go(ServerState::ExchangeSent, ServerAction::Send(event))
            },
            0 => {
                if got != EventType::TYPE_NEGOTIATION {
                    return self.fail(
                        InitError::Cause(
                            InitCause::Unexpected { expected: EventType::TYPE_NEGOTIATION, got },
                        ),
                    );
                }
                match h.body_len() {
                    None => self.fail(InitError::Cause(InitCause::BadLength(h.length()))),
                    Some(n) => self.go(ServerState::AwaitRequest, ServerAction::ReadRequest(n)),
                }
            },
            version => self.fail(InitError::UnsupportedVersion(version)),
        }
    }

    fn on_request(&mut self, q: NegotiationRequest) -> (r: ServerAction)
        ensures
            final(self).wf(),
            final(self).on() == old(self).on(),
            final(self).progress() == old(self).progress().on_request(old(self).on(), q).0,
            r.is_action(
                old(self).progress().on_request(old(self).on(), q).1,
                final(self).chosen(),
            ),
    {
        if !q.supports_v4() {
            return self.go(
                ServerState::NoV4Sent,
                ServerAction::SendResponse(NegotiationResponse::version_not_supported()),
            );
        }
        let feature = select_feature_on(&q, self.platform);
        self.feature = feature;
        match NegotiationResponse::ok(feature) {
            Ok(response) => self.go(
                ServerState::ResponseSent,
                ServerAction::SendResponse(response),
            ),
            Err(e) => self.fail(InitError::Cause(InitCause::Settings(e))),
        }
    }

    fn on_shm(&mut self, proto: u8, h: Header) -> (r: ServerAction)
        requires
            ServerProgress::long_enough(h),
        ensures
            final(self).wf(),
            final(self).on() == old(self).on(),
            final(self).progress() == old(self).progress().on_shm(proto, h).0,
            r.is_action(old(self).progress().on_shm(proto, h).1, final(self).chosen()),
    {
        if let Err(e) = check_event_valid(&h) {
            return self.fail(InitError::Cause(InitCause::Event(e)));
        }
        let got: u8 = h.msg_type().inner();
        if matches!(self.feature, NegotiatedFeature::EventFd) && got
            != EventType::TYPE_SHARE_MEMORY_BY_MEMFD {
            return self.fail(InitError::EventFdWithoutMemfd);
        }
        if got == EventType::TYPE_SHARE_MEMORY_BY_FILE_PATH || got
            == EventType::TYPE_SHARE_MEMORY_BY_MEMFD {
            let n: u32 = h.length() - 8;
            return self.go(
                ServerState::AwaitBody { proto, memfd: got == EventType::TYPE_SHARE_MEMORY_BY_MEMFD },
                ServerAction::ReadBody(n),
            );
        }
        self.fail(
            InitError::Cause(
                InitCause::Unexpected { expected: EventType::TYPE_SHARE_MEMORY_BY_FILE_PATH, got },
            ),
        )
    }

    fn on_body(&mut self, proto: u8, memfd: bool, body: Vec<u8>) -> (r: ServerAction)
        requires
            metadata::has_metadata(body@),
        ensures
            final(self).wf(),
            final(self).on() == old(self).on(),
            final(self).progress() == old(self).progress().on_body(proto, memfd, body@).0,
            r.is_action(
                old(self).progress().on_body(proto, memfd, body@).1,
                final(self).chosen(),
            ),
    {
        let (buffer_path, queue_path) = metadata::extract_shm_metadata(body.as_slice());
        self.buffer_path = buffer_path;
        self.queue_path = queue_path;
        if memfd {
            let event: Vec<u8> = header::bare_event(
                initializer::msg_version(proto),
                EventType(EventType::TYPE_ACK_READY_RECV_FD),
            );
            self.go(ServerState::ReadySent { proto }, ServerAction::Send(event))
        } else {
            self.go(ServerState::Mapping { proto }, ServerAction::MapFiles { proto })
        }
    }

    fn fd_count(&self) -> (r: usize)
        ensures
            r == self.progress().fd_count(),
    {
        if matches!(self.feature, NegotiatedFeature::EventFd) {
            MEMFD_COUNT_EVENTFD
        } else {
            MEMFD_COUNT
        }
    }

    fn on_fds(&mut self, proto: u8, fds: Vec<i32>) -> (r: ServerAction)
        requires
            fds@.len() >= old(self).progress().fd_count(),
        ensures
            final(self).wf(),
            final(self).on() == old(self).on(),
            final(self).progress() == old(self).progress().on_fds(proto, fds@).0,
            r.is_action(old(self).progress().on_fds(proto, fds@).1, final(self).chosen()),
    {
        if matches!(self.feature, NegotiatedFeature::EventFd) {
            self.eventfd = Some(EventFdPair { wakeup_send: fds[3], wakeup_recv: fds[2] });
        }
        self.go(
            ServerState::Mapping { proto },
            ServerAction::MapFds { buffer_fd: fds[0], queue_fd: fds[1], proto },
        )
    }

    fn done(&mut self, proto: u8) -> (r: ServerAction)
        ensures
            final(self).wf(),
            final(self).on() == old(self).on(),
            final(self).progress() == old(self).progress().done(proto).0,
            r.is_action(old(self).progress().done(proto).1, final(self).chosen()),
    {
        self.state = ServerState::Finished;
        if proto == PROTO_VERSION_V4 {
            ServerAction::Done(
                ProtocolInitialized::new(
                    proto,
                    initializer::msg_version(proto),
                    self.feature,
                    self.eventfd,
                ),
            )
        } else {
            ServerAction::Done(ProtocolInitialized::legacy(proto))
        }
    }

    /// Whether an event belongs to what is waited for, and what came in is not cut short.
    pub fn expects(&self, event: &ServerEvent) -> (r: bool)
        ensures
            r == self.progress().expects(*event),
    {
        match self.state {
            ServerState::Start => matches!(event, ServerEvent::Begin),
            ServerState::AwaitFirst | ServerState::AwaitShm { .. } => match event {
                ServerEvent::Header(h) => {
                    let t: u8 = h.msg_type().inner();
                    check_event_valid(h).is_err() || !(t
                        == EventType::TYPE_SHARE_MEMORY_BY_FILE_PATH || t
                        == EventType::TYPE_SHARE_MEMORY_BY_MEMFD) || h.length() >= 8
                },
                ServerEvent::Failed(_) => true,
                _ => false,
            },
            ServerState::ExchangeSent
            | ServerState::BadJsonSent
            | ServerState::NoV4Sent
            | ServerState::ResponseSent
            | ServerState::ReadySent { .. }
            | ServerState::AckSent { .. } => matches!(
                event,
                ServerEvent::Sent | ServerEvent::Failed(_)
            ),
            ServerState::AwaitRequest => matches!(
                event,
                ServerEvent::Request(_) | ServerEvent::BadJson(_) | ServerEvent::Failed(_)
            ),
            ServerState::AwaitBody { .. } => match event {
                ServerEvent::Body(b) => metadata::has_shm_metadata(b.as_slice()),
                ServerEvent::Failed(_) => true,
                _ => false,
            },
            ServerState::AwaitFds { .. } => match event {
                ServerEvent::Fds(f) => f.len() >= self.fd_count(),
                ServerEvent::Failed(_) => true,
                _ => false,
            },
            ServerState::Mapping { .. } => matches!(
                event,
                ServerEvent::Mapped | ServerEvent::Failed(_)
            ),
            ServerState::Finished => false,
        }
    }

    /// Takes what came of the last action and gives the next.
    pub fn step(&mut self, event: ServerEvent) -> (r: ServerAction)
        requires
            old(self).wf(),
            old(self).progress().expects(event),
        ensures
            final(self).wf(),
            final(self).on() == old(self).on(),
            final(self).progress() == old(self).progress().next(old(self).on(), event).0,
            r.is_action(
                old(self).progress().next(old(self).on(), event).1,
                final(self).chosen(),
            ),
    {
        proof {
            reveal(ServerProgress::next);
        }
        let state = self.state;
        match (state, event) {
            (ServerState::BadJsonSent, _) => {
                let mut m: Option<String> = None;
                match &self.bad_json {
                    Some(s) => {
                        m = Some(s.clone());
                    },
                    None => {},
                }
                match m {
                    Some(s) => self.fail(InitError::Cause(InitCause::Json(s))),
                    None => self.fail(InitError::ClientWithoutV4),
                }
            },
            (_, ServerEvent::Failed(e)) => self.fail(InitError::Cause(InitCause::Io(e))),
            (ServerState::Start, _) => self.go(ServerState::AwaitFirst, ServerAction::ReadHeader),
            (ServerState::AwaitFirst, ServerEvent::Header(h)) => self.on_first(h),
            (ServerState::ExchangeSent, _) => self.go(
                ServerState::AwaitShm { proto: 3 },
                ServerAction::ReadHeader,
            ),
            (ServerState::AwaitRequest, ServerEvent::BadJson(e)) => {
                let response = NegotiationResponse::json_parse_error(e.clone());
                self.bad_json = Some(e);
                self.state = ServerState::BadJsonSent;
                ServerAction::SendResponse(response)
            },
            (ServerState::AwaitRequest, ServerEvent::Request(q)) => self.on_request(q),
            (ServerState::NoV4Sent, _) => self.fail(InitError::ClientWithoutV4),
            (ServerState::ResponseSent, _) => self.go(
                ServerState::AwaitShm { proto: PROTO_VERSION_V4 },
                ServerAction::ReadHeader,
            ),
            (ServerState::AwaitShm { proto }, ServerEvent::Header(h)) => self.on_shm(proto, h),
            (ServerState::AwaitBody { proto, memfd }, ServerEvent::Body(b)) => self.on_body(
                proto,
                memfd,
                b,
            ),
            (ServerState::ReadySent { proto }, _) => {
                let n: usize = self.fd_count();
                self.go(ServerState::AwaitFds { proto }, ServerAction::RecvFds(n))
            },
            (ServerState::AwaitFds { proto }, ServerEvent::Fds(f)) => self.on_fds(proto, f),
            (ServerState::Mapping { proto }, _) => {
                if proto == 2 {
                    self.done(2)
                } else {
                    let event: Vec<u8> = header::bare_event(
                        initializer::msg_version(proto),
                        EventType(EventType::TYPE_ACK_SHARE_MEMORY),
                    );
                    self.go(ServerState::AckSent { proto }, ServerAction::Send(event))
                }
            },
            (ServerState::AckSent { proto }, _) => self.done(proto),
            (_, _) => ServerAction::ReadHeader,
        }
    }
}

} // verus!
