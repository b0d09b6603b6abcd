//! How a client sets up a session, one exchange after the other.
//!
//! The adapter decides and never talks: each step takes what came of the last action and gives
//! the next one.

use vstd::prelude::*;
use vstd::utf8;

use crate::config::{Config, Platform, ProtocolMode, WakeupMode};
use crate::consts::{MemMapType, HEADER_SIZE, MAX_SUPPORT_PROTO_VERSION};
use crate::protocol::event::EventType;
use crate::protocol::header;
use crate::protocol::header::Header;
use crate::protocol::initializer;
use crate::protocol::initializer::{
    EventFdPair, InitCause, InitError, InitializedView, ProtocolInitialized, V4ClientInitError,
};
use crate::protocol::metadata;
use crate::protocol::negotiation::{
    FeatureView, NegotiatedFeature, NegotiationFailure, NegotiationRequest, NegotiationResponse,
    PROTO_VERSION_V4,
};

verus! {

/// What the client waits for. `proto` is the protocol that the session will have.
#[derive(Clone, Copy, Debug, PartialEq, Eq, Structural)]
pub enum ClientState {
    Start,
    /// The version is being sent.
    ExchangeSent,
    /// The version of the server is being read.
    AwaitVersion,
    /// The request for V4 is being sent.
    RequestSent,
    /// The header of the answer is being read.
    AwaitResponseHeader,
    /// The answer is being read.
    AwaitResponse,
    /// The eventfds are being made.
    AwaitEventFds,
    /// The paths are being sent.
    MetadataSent { proto: u8, memfd: bool },
    /// The server gets ready for the descriptors.
    AwaitReady { proto: u8 },
    /// The descriptors are being sent.
    FdsSent { proto: u8 },
    /// The server maps the shared memory.
    AwaitAck { proto: u8 },
    Finished,
}

/// What came of an action.
#[derive(Debug)]
pub enum ClientEvent {
    /// Nothing was done yet.
    Begin,
    /// The message or the descriptors went out.
    Sent,
    /// A header came in.
    Header(Header),
    /// The answer came in.
    Response(NegotiationResponse),
    /// The answer came in and is no JSON of an answer.
    BadJson(String),
    /// The eventfds are there.
    EventFds(EventFdPair),
    /// The action failed.
    Failed(String),
}

/// What to do next.
#[derive(Debug)]
pub enum ClientAction {
    Send(Vec<u8>),
    /// Send the adapter's request as a message of the negotiation.
    SendRequest,
    ReadHeader,
    /// Read so many bytes and take them for the JSON of an answer.
    ReadResponse(u32),
    CreateEventFds,
    SendFds(Vec<i32>),
    Done(ProtocolInitialized),
    Fail(InitError),
}

pub enum ClientActionView {
    Send(Seq<u8>),
    SendRequest,
    ReadHeader,
    ReadResponse(u32),
    CreateEventFds,
    SendFds(Seq<i32>),
    Done(InitializedView),
    Fail(InitError),
}

impl ClientAction {
    pub open spec fn view(&self) -> ClientActionView {
        match *self {
            ClientAction::Send(b) => ClientActionView::Send(b@),
            ClientAction::SendRequest => ClientActionView::SendRequest,
            ClientAction::ReadHeader => ClientActionView::ReadHeader,
            ClientAction::ReadResponse(n) => ClientActionView::ReadResponse(n),
            ClientAction::CreateEventFds => ClientActionView::CreateEventFds,
            ClientAction::SendFds(f) => ClientActionView::SendFds(f@),
            ClientAction::Done(i) => ClientActionView::Done(i.view()),
            ClientAction::Fail(e) => ClientActionView::Fail(e),
        }
    }
}

/// What a client sets up and how.
pub struct ClientParams {
    pub mem_map_type: MemMapType,
    pub mode: ProtocolMode,
    pub wakeup: WakeupMode,
    pub platform: Platform,
    pub buffer_path: Seq<u8>,
    pub queue_path: Seq<u8>,
    pub buffer_fd: i32,
    pub queue_fd: i32,
}

/// How far a client is.
pub struct ClientProgress {
    pub state: ClientState,
    pub feature: FeatureView,
    pub eventfd: Option<EventFdPair>,
}

impl ClientParams {
    /// The event belongs to what is waited for.
    pub open spec fn expects(state: ClientState, event: ClientEvent) -> bool {
        match state {
            ClientState::Start => event is Begin,
            ClientState::ExchangeSent
            | ClientState::RequestSent
            | ClientState::MetadataSent { .. }
            | ClientState::FdsSent { .. } => event is Sent || event is Failed,
            ClientState::AwaitVersion
            | ClientState::AwaitResponseHeader
            | ClientState::AwaitReady { .. }
            | ClientState::AwaitAck { .. } => event is Header || event is Failed,
            ClientState::AwaitResponse => event is Response || event is BadJson || event is Failed,
            ClientState::AwaitEventFds => event is EventFds || event is Failed,
            ClientState::Finished => false,
        }
    }

    /// Sends the paths.
    pub open spec fn announce(self, p: ClientProgress, proto: u8, memfd: bool) -> (
        ClientProgress,
        ClientActionView,
    ) {
        (
            ClientProgress { state: ClientState::MetadataSent { proto, memfd }, ..p },
            ClientActionView::Send(
                metadata::metadata(
                    if memfd {
                        EventType::TYPE_SHARE_MEMORY_BY_MEMFD
                    } else {
                        EventType::TYPE_SHARE_MEMORY_BY_FILE_PATH
                    },
                    self.buffer_path,
                    self.queue_path,
                    initializer::msg_version(proto),
                ),
            ),
        )
    }

    pub open spec fn fail(p: ClientProgress, e: InitError) -> (ClientProgress, ClientActionView) {
        (ClientProgress { state: ClientState::Finished, ..p }, ClientActionView::Fail(e))
    }

    pub open spec fn go(p: ClientProgress, state: ClientState, action: ClientActionView) -> (
        ClientProgress,
        ClientActionView,
    ) {
        (ClientProgress { state, ..p }, action)
    }

    /// The session is there.
    pub open spec fn done(p: ClientProgress, proto: u8) -> (ClientProgress, ClientActionView) {
        Self::go(
            p,
            ClientState::Finished,
            ClientActionView::Done(
                if proto == PROTO_VERSION_V4 {
                    InitializedView {
                        proto_version: proto,
                        msg_version: initializer::msg_version(proto),
                        feature: p.feature,
                        eventfd: p.eventfd,
                    }
                } else {
                    InitializedView {
                        proto_version: proto,
                        msg_version: proto,
                        feature: FeatureView::NoFeature,
                        eventfd: None,
                    }
                },
            ),
        )
    }

    /// The first action.
    pub open spec fn begin(
        self,
        p: ClientProgress,
        request: Result<NegotiationRequest, NegotiationFailure>,
    ) -> (ClientProgress, ClientActionView) {
        if self.mode is V4 {
            match request {
                Ok(_) => Self::go(p, ClientState::RequestSent, ClientActionView::SendRequest),
                Err(e) => Self::fail(p, InitError::Cause(InitCause::Settings(e))),
            }
        } else if self.mem_map_type is MemMapTypeDevShmFile {
            self.announce(p, 2, false)
        } else {
            Self::go(
                p,
                ClientState::ExchangeSent,
                ClientActionView::Send(
                    header::frame(
                        HEADER_SIZE as u32,
                        MAX_SUPPORT_PROTO_VERSION,
                        EventType::TYPE_EXCHANGE_PROTO_VERSION,
                    ),
                ),
            )
        }
    }

    /// The action after the server named its version.
    pub open spec fn on_version(self, p: ClientProgress, h: Header) -> (
        ClientProgress,
        ClientActionView,
    ) {
        match initializer::awaited(h, EventType::TYPE_EXCHANGE_PROTO_VERSION) {
            Err(e) => Self::fail(p, InitError::Cause(e)),
            Ok(_) => if h.version() == 2 {
                self.announce(p, 2, false)
            } else if h.version() >= 3 {
                self.announce(p, 3, self.mem_map_type is MemMapTypeMemFd)
            } else {
                Self::fail(p, InitError::UnsupportedVersion(h.version()))
            },
        }
    }

    /// The action after the header of the answer came in.
    pub open spec fn on_response_header(self, p: ClientProgress, h: Header) -> (
        ClientProgress,
        ClientActionView,
    ) {
        match initializer::awaited(h, EventType::TYPE_NEGOTIATION) {
            Err(source) => Self::fail(
                p,
                InitError::V4(V4ClientInitError::NetworkOrProtocol { source }),
            ),
            Ok(_) => if h.length() < HEADER_SIZE {
                Self::fail(
                    p,
                    InitError::V4(
                        V4ClientInitError::NetworkOrProtocol {
                            source: InitCause::BadLength(h.length()),
                        },
                    ),
                )
            } else {
                Self::go(
                    p,
                    ClientState::AwaitResponse,
                    ClientActionView::ReadResponse((h.length() - HEADER_SIZE) as u32),
                )
            },
        }
    }

    /// The action after the answer came in.
    pub open spec fn on_response(
        self,
        p: ClientProgress,
        request: NegotiationRequest,
        response: NegotiationResponse,
    ) -> (ClientProgress, ClientActionView) {
        if response.error is Some {
            Self::fail(p, InitError::V4(V4ClientInitError::Rejected(response.error->0)))
        } else if response.selected_protocol != PROTO_VERSION_V4 {
            Self::fail(
                p,
                InitError::V4(V4ClientInitError::UnsupportedProtocol(response.selected_protocol)),
            )
        } else {
            match response.selected(request) {
                Err(e) => Self::fail(
                    p,
                    InitError::V4(
                        V4ClientInitError::InvalidResponse { source: InitCause::Settings(e) },
                    ),
                ),
                Ok(feature) => {
                    let q = ClientProgress { feature, ..p };
                    if feature is EventFd {
                        Self::go(q, ClientState::AwaitEventFds, ClientActionView::CreateEventFds)
                    } else {
                        self.announce(
                            q,
                            PROTO_VERSION_V4,
                            self.mem_map_type is MemMapTypeMemFd,
                        )
                    }
                },
            }
        }
    }

    /// The descriptors that go to the server.
    pub open spec fn fds(self, p: ClientProgress) -> Seq<i32> {
        match p.eventfd {
            Some(e) => seq![self.buffer_fd, self.queue_fd, e.wakeup_send, e.wakeup_recv],
            None => seq![self.buffer_fd, self.queue_fd],
        }
    }

    /// The next action.
    #[verifier::opaque]
    pub open spec fn next(
        self,
        p: ClientProgress,
        request: Result<NegotiationRequest, NegotiationFailure>,
        event: ClientEvent,
    ) -> (ClientProgress, ClientActionView) {
        match p.state {
            ClientState::Start => self.begin(p, request),
            ClientState::ExchangeSent => match event {
                ClientEvent::Failed(e) => Self::fail(p, InitError::Cause(InitCause::Io(e))),
                _ => Self::go(p, ClientState::AwaitVersion, ClientActionView::ReadHeader),
            },
            ClientState::AwaitVersion => match event {
                ClientEvent::Header(h) => self.on_version(p, h),
                _ => Self::fail(p, InitError::Cause(InitCause::Io(event->Failed_0))),
            },
            ClientState::RequestSent => match event {
                ClientEvent::Failed(e) => Self::fail(
                    p,
                    InitError::V4(
                        V4ClientInitError::NetworkOrProtocol { source: InitCause::Io(e) },
                    ),
                ),
                _ => Self::go(p, ClientState::AwaitResponseHeader, ClientActionView::ReadHeader),
            },
            ClientState::AwaitResponseHeader => match event {
                ClientEvent::Header(h) => self.on_response_header(p, h),
                _ => Self::fail(
                    p,
                    InitError::V4(
                        V4ClientInitError::NetworkOrProtocol {
                            source: InitCause::Io(event->Failed_0),
                        },
                    ),
                ),
            },
            ClientState::AwaitResponse => match event {
                ClientEvent::Response(r) => self.on_response(p, request->Ok_0, r),
                ClientEvent::BadJson(e) => Self::fail(
                    p,
                    InitError::V4(
                        V4ClientInitError::InvalidResponse { source: InitCause::Json(e) },
                    ),
                ),
                _ => Self::fail(
                    p,
                    InitError::V4(
                        V4ClientInitError::NetworkOrProtocol {
                            source: InitCause::Io(event->Failed_0),
                        },
                    ),
                ),
            },
            ClientState::AwaitEventFds => match event {
                ClientEvent::EventFds(e) => self.announce(
                    ClientProgress { eventfd: Some(e), ..p },
                    PROTO_VERSION_V4,
                    self.mem_map_type is MemMapTypeMemFd,
                ),
                _ => Self::fail(p, InitError::Cause(InitCause::Io(event->Failed_0))),
            },
            ClientState::MetadataSent { proto, memfd } => match event {
                ClientEvent::Failed(e) => Self::fail(p, InitError::Cause(InitCause::Io(e))),
                _ => if memfd {
                    Self::go(p, ClientState::AwaitReady { proto }, ClientActionView::ReadHeader)
                } else if proto == 2 {
                    Self::done(p, 2)
                } else {
                    Self::go(p, ClientState::AwaitAck { proto }, ClientActionView::ReadHeader)
                },
            },
            ClientState::AwaitReady { proto } => match event {
                ClientEvent::Header(h) => match initializer::awaited(
                    h,
                    EventType::TYPE_ACK_READY_RECV_FD,
                ) {
                    Err(e) => Self::fail(p, InitError::Cause(e)),
                    Ok(_) => Self::go(
                        p,
                        ClientState::FdsSent { proto },
                        ClientActionView::SendFds(self.fds(p)),
                    ),
                },
                _ => Self::fail(p, InitError::Cause(InitCause::Io(event->Failed_0))),
            },
            ClientState::FdsSent { proto } => match event {
                ClientEvent::Failed(e) => Self::fail(p, InitError::Cause(InitCause::Io(e))),
                _ => Self::go(p, ClientState::AwaitAck { proto }, ClientActionView::ReadHeader),
            },
            ClientState::AwaitAck { proto } => match event {
                ClientEvent::Header(h) => match initializer::awaited(
                    h,
                    EventType::TYPE_ACK_SHARE_MEMORY,
                ) {
                    Err(e) => Self::fail(p, InitError::Cause(e)),
                    Ok(_) => Self::done(p, proto),
                },
                _ => Self::fail(p, InitError::Cause(InitCause::Io(event->Failed_0))),
            },
            ClientState::Finished => (p, ClientActionView::ReadHeader),
        }
    }
}

/// A client that sets up a session.
pub struct ClientProtocolAdapter {
    config: Config,
    platform: Platform,
    buffer_path: String,
    queue_path: String,
    buffer_fd: i32,
    queue_fd: i32,
    state: ClientState,
    request: Option<NegotiationRequest>,
    feature: NegotiatedFeature,
    eventfd: Option<EventFdPair>,
}

impl ClientProtocolAdapter {
    pub closed spec fn params(self) -> ClientParams {
        ClientParams {
            mem_map_type: self.config.mem_map_type,
            mode: self.config.protocol.mode,
            wakeup: self.config.protocol.wakeup,
            platform: self.platform,
            buffer_path: utf8::encode_utf8(self.buffer_path@),
            queue_path: utf8::encode_utf8(self.queue_path@),
            buffer_fd: self.buffer_fd,
            queue_fd: self.queue_fd,
        }
    }

    pub closed spec fn progress(self) -> ClientProgress {
        ClientProgress {
            state: self.state,
            feature: self.feature.view(),
            eventfd: self.eventfd,
        }
    }

    /// The request that goes to the server.
    pub closed spec fn asked(self) -> Option<NegotiationRequest> {
        self.request
    }

    /// The paths fit a message, and whoever waits for an answer has asked.
    pub open spec fn wf(self) -> bool {
        &&& HEADER_SIZE + 4 + self.params().buffer_path.len() + self.params().queue_path.len()
            <= usize::MAX
        &&& (self.progress().state is RequestSent || self.progress().state is AwaitResponseHeader
            || self.progress().state is AwaitResponse) ==> self.asked() is Some
    }

    /// A client that has not begun.
    pub fn new(
        config: Config,
        platform: Platform,
        buffer_path: String,
        queue_path: String,
        buffer_fd: i32,
        queue_fd: i32,
    ) -> (r: Self)
        requires
            HEADER_SIZE + 4 + utf8::encode_utf8(buffer_path@).len() + utf8::encode_utf8(
                queue_path@,
            ).len() <= usize::MAX,
        ensures
            r.params() == (ClientParams {
                mem_map_type: config.mem_map_type,
                mode: config.protocol.mode,
                wakeup: config.protocol.wakeup,
                platform,
                buffer_path: utf8::encode_utf8(buffer_path@),
                queue_path: utf8::encode_utf8(queue_path@),
                buffer_fd,
                queue_fd,
            }),
            r.progress() == (ClientProgress {
                state: ClientState::Start,
                feature: FeatureView::NoFeature,
                eventfd: None,
            }),
            r.asked() is None,
            r.wf(),
    {
        ClientProtocolAdapter {
            config,
            platform,
            buffer_path,
            queue_path,
            buffer_fd,
            queue_fd,
            state: ClientState::Start,
            request: None,
            feature: NegotiatedFeature::NoFeature,
            eventfd: None,
        }
    }

    /// The request that goes to the server, once there is one.
    pub fn request(&self) -> (r: &Option<NegotiationRequest>)
        ensures
            *r == self.asked(),
    {
        &self.request
    }

    /// The request of the step: the one that is made at the start, and later the one that was.
    pub open spec fn request_of(old: Self, new: Self) -> Result<
        NegotiationRequest,
        NegotiationFailure,
    > {
        match new.asked() {
            Some(q) => Ok(q),
            None => Err(
                NegotiationRequest::refusal(old.params().wakeup, old.params().platform)->0,
            ),
        }
    }

    fn announce(&mut self, proto: u8, memfd: bool) -> (r: ClientAction)
        requires
            old(self).wf(),
        ensures
            final(self).wf(),
            final(self).params() == old(self).params(),
            final(self).asked() == old(self).asked(),
            (final(self).progress(), r.view()) == old(self).params().announce(
                old(self).progress(),
                proto,
                memfd,
            ),
    {
        let event_type: u8 = if memfd {
            EventType::TYPE_SHARE_MEMORY_BY_MEMFD
        } else {
            EventType::TYPE_SHARE_MEMORY_BY_FILE_PATH
        };
        let data: Vec<u8> = metadata::generate_shm_metadata(
            EventType(event_type),
            self.buffer_path.as_str(),
            self.queue_path.as_str(),
            initializer::msg_version(proto),
        );
        self.state = ClientState::MetadataSent { proto, memfd };
        ClientAction::Send(data)
    }

    fn go(&mut self, state: ClientState, action: ClientAction) -> (r: ClientAction)
        requires
            old(self).wf(),
            (state is RequestSent || state is AwaitResponseHeader || state is AwaitResponse)
                ==> old(self).asked() is Some,
        ensures
            r == action,
            final(self).wf(),
            final(self).params() == old(self).params(),
            final(self).asked() == old(self).asked(),
            final(self).progress() == (ClientProgress { state, ..old(self).progress() }),
    {
        self.state = state;
        action
    }

    fn done(&mut self, proto: u8) -> (r: ClientAction)
        requires
            old(self).wf(),
        ensures
            final(self).wf(),
            final(self).params() == old(self).params(),
            final(self).asked() == old(self).asked(),
            (final(self).progress(), r.view()) == ClientParams::done(old(self).progress(), proto),
    {
        self.state = ClientState::Finished;
        if proto == PROTO_VERSION_V4 {
            ClientAction::Done(
                ProtocolInitialized::new(
                    proto,
                    initializer::msg_version(proto),
                    self.feature,
                    self.eventfd,
                ),
            )
        } else {
            ClientAction::Done(ProtocolInitialized::legacy(proto))
        }
    }

    fn begin(&mut self) -> (r: ClientAction)
        requires
            old(self).wf(),
            old(self).progress().state is Start,
            old(self).asked() is None,
        ensures
            final(self).wf(),
            final(self).params() == old(self).params(),
            old(self).params().mode is V4 ==> NegotiationRequest::is_for(
                Self::request_of(*old(self), *final(self)),
                old(self).params().wakeup,
                old(self).params().platform,
            ),
            !(old(self).params().mode is V4) ==> final(self).asked() is None,
            (final(self).progress(), r.view()) == old(self).params().begin(
                old(self).progress(),
                Self::request_of(*old(self), *final(self)),
            ),
    {
        match self.config.protocol.mode {
            ProtocolMode::V4 { .. } => {
                match NegotiationRequest::from_config_on(&self.config, self.platform) {
                    Ok(q) => {
                        self.request = Some(q);
                        self.go(ClientState::RequestSent, ClientAction::SendRequest)
                    },
                    Err(e) => {
                        self.go(
                            ClientState::Finished,
                            ClientAction::Fail(InitError::Cause(InitCause::Settings(e))),
                        )
                    },
                }
            },
            ProtocolMode::Legacy => match self.config.mem_map_type {
                MemMapType::MemMapTypeDevShmFile => self.announce(2, false),
                MemMapType::MemMapTypeMemFd => {
                    let event: Vec<u8> = header::bare_event(
                        MAX_SUPPORT_PROTO_VERSION,
                        EventType(EventType::TYPE_EXCHANGE_PROTO_VERSION),
                    );
                    self.go(ClientState::ExchangeSent, ClientAction::Send(event))
                },
            },
        }
    }

    fn is_memfd(&self) -> (r: bool)
        ensures
            r == (self.params().mem_map_type is MemMapTypeMemFd),
    {
        matches!(self.config.mem_map_type, MemMapType::MemMapTypeMemFd)
    }

    fn on_version(&mut self, h: Header) -> (r: ClientAction)
        requires
            old(self).wf(),
        ensures
            final(self).wf(),
            final(self).params() == old(self).params(),
            final(self).asked() == old(self).asked(),
            (final(self).progress(), r.view()) == old(self).params().on_version(
                old(self).progress(),
                h,
            ),
    {
        match initializer::wait_event_header(&h, EventType::TYPE_EXCHANGE_PROTO_VERSION) {
            Err(e) => self.go(ClientState::Finished, ClientAction::Fail(InitError::Cause(e))),
            Ok(_) => {
                let server_version: u8 = h.version();
                if server_version == 2 {
                    self.announce(2, false)
                } else if server_version >= 3 {
                    let memfd: bool = self.is_memfd();
                    self.announce(3, memfd)
                } else {
                    self.go(
                        ClientState::Finished,
                        ClientAction::Fail(InitError::UnsupportedVersion(server_version)),
                    )
                }
            },
        }
    }

    fn on_response_header(&mut self, h: Header) -> (r: ClientAction)
        requires
            old(self).wf(),
            old(self).asked() is Some,
        ensures
            final(self).wf(),
            final(self).params() == old(self).params(),
            final(self).asked() == old(self).asked(),
            (final(self).progress(), r.view()) == old(self).params().on_response_header(
                old(self).progress(),
                h,
            ),
    {
        match initializer::wait_event_header(&h, EventType::TYPE_NEGOTIATION) {
            Err(e) => self.go(
                ClientState::Finished,
                ClientAction::Fail(V4ClientInitError::network_or_protocol(e)),
            ),
            Ok(_) => match h.body_len() {
                Some(n) => self.go(ClientState::AwaitResponse, ClientAction::ReadResponse(n)),
                None => self.go(
                    ClientState::Finished,
                    ClientAction::Fail(
                        V4ClientInitError::network_or_protocol(InitCause::BadLength(h.length())),
                    ),
                ),
            },
        }
    }

    fn on_response(&mut self, response: NegotiationResponse) -> (r: ClientAction)
        requires
            old(self).wf(),
            old(self).asked() is Some,
        ensures
            final(self).wf(),
            final(self).params() == old(self).params(),
            final(self).asked() == old(self).asked(),
            (final(self).progress(), r.view()) == old(self).params().on_response(
                old(self).progress(),
                old(self).asked()->0,
                response,
            ),
    {
        if response.error.is_some() {
            let e = response.error.unwrap();
            return self.go(ClientState::Finished, ClientAction::Fail(V4ClientInitError::rejected(e)));
        }
        if response.selected_protocol != PROTO_VERSION_V4 {
            return self.go(
                ClientState::Finished,
                ClientAction::Fail(
                    V4ClientInitError::unsupported_protocol(response.selected_protocol),
                ),
            );
        }
        let selected = match &self.request {
            Some(q) => response.selected_feature_for_request(q),
            None => Err(NegotiationFailure::MissingSettings),
        };
        match selected {
            Err(e) => self.go(
                ClientState::Finished,
                ClientAction::Fail(V4ClientInitError::invalid_response(InitCause::Settings(e))),
            ),
            Ok(feature) => {
                self.feature = feature;
                if matches!(feature, NegotiatedFeature::EventFd) {
                    self.go(ClientState::AwaitEventFds, ClientAction::CreateEventFds)
                } else {
                    let memfd: bool = self.is_memfd();
                    self.announce(PROTO_VERSION_V4, memfd)
                }
            },
        }
    }

    fn fds(&self) -> (r: Vec<i32>)
        ensures
            r@ == self.params().fds(self.progress()),
    {
        let mut fds: Vec<i32> = Vec::new();
        fds.push(self.buffer_fd);
        fds.push(self.queue_fd);
        if let Some(e) = self.eventfd {
            fds.push(e.wakeup_send);
            fds.push(e.wakeup_recv);
        }
        assert(fds@ =~= self.params().fds(self.progress()));
        fds
    }

    /// Whether an event belongs to what is waited for.
    pub fn expects(&self, event: &ClientEvent) -> (r: bool)
        ensures
            r == ClientParams::expects(self.progress().state, *event),
    {
        match self.state {
            ClientState::Start => matches!(event, ClientEvent::Begin),
            ClientState::ExchangeSent
            | ClientState::RequestSent
            | ClientState::MetadataSent { .. }
            | ClientState::FdsSent { .. } => matches!(
                event,
                ClientEvent::Sent | ClientEvent::Failed(_)
            ),
            ClientState::AwaitVersion
            | ClientState::AwaitResponseHeader
            | ClientState::AwaitReady { .. }
            | ClientState::AwaitAck { .. } => matches!(
                event,
                ClientEvent::Header(_) | ClientEvent::Failed(_)
            ),
            ClientState::AwaitResponse => matches!(
                event,
                ClientEvent::Response(_) | ClientEvent::BadJson(_) | ClientEvent::Failed(_)
            ),
            ClientState::AwaitEventFds => matches!(
                event,
                ClientEvent::EventFds(_) | ClientEvent::Failed(_)
            ),
            ClientState::Finished => false,
        }
    }

    /// Takes what came of the last action and gives the next.
    pub fn step(&mut self, event: ClientEvent) -> (r: ClientAction)
        requires
            old(self).wf(),
            ClientParams::expects(old(self).progress().state, event),
            old(self).progress().state is Start ==> old(self).asked() is None,
        ensures
            final(self).wf(),
            final(self).params() == old(self).params(),
            !(old(self).progress().state is Start) ==> final(self).asked() == old(self).asked(),
            old(self).progress().state is Start && old(self).params().mode is V4
                ==> NegotiationRequest::is_for(
                Self::request_of(*old(self), *final(self)),
                old(self).params().wakeup,
                old(self).params().platform,
            ),
            (final(self).progress(), r.view()) == old(self).params().next(
                old(self).progress(),
                Self::request_of(*old(self), *final(self)),
                event,
            ),
    {
        proof {
            reveal(ClientParams::next);
        }
        let state = self.state;
        match (state, event) {
            (ClientState::Start, _) => self.begin(),
            (ClientState::AwaitVersion, ClientEvent::Header(h)) => self.on_version(h),
            (ClientState::AwaitResponseHeader, ClientEvent::Header(h)) => self.on_response_header(
                h,
            ),
            (ClientState::AwaitResponse, ClientEvent::Response(r)) => self.on_response(r),
            (ClientState::AwaitResponse, ClientEvent::BadJson(e)) => self.go(
                ClientState::Finished,
                ClientAction::Fail(V4ClientInitError::invalid_response(InitCause::Json(e))),
            ),
            (ClientState::AwaitEventFds, ClientEvent::EventFds(e)) => {
                self.eventfd = Some(e);
                let memfd: bool = self.is_memfd();
                self.announce(PROTO_VERSION_V4, memfd)
            },
            (ClientState::AwaitReady { proto }, ClientEvent::Header(h)) => {
                match initializer::wait_event_header(&h, EventType::TYPE_ACK_READY_RECV_FD) {
                    Err(e) => self.go(
                        ClientState::Finished,
                        ClientAction::Fail(InitError::Cause(e)),
                    ),
                    Ok(_) => {
                        let fds: Vec<i32> = self.fds();
                        self.go(ClientState::FdsSent { proto }, ClientAction::SendFds(fds))
                    },
                }
            },
            (ClientState::AwaitAck { proto }, ClientEvent::Header(h)) => {
                match initializer::wait_event_header(&h, EventType::TYPE_ACK_SHARE_MEMORY) {
                    Err(e) => self.go(
                        ClientState::Finished,
                        ClientAction::Fail(InitError::Cause(e)),
                    ),
                    Ok(_) => self.done(proto),
                }
            },
            (ClientState::RequestSent, ClientEvent::Failed(e)) => self.go(
                ClientState::Finished,
                ClientAction::Fail(V4ClientInitError::network_or_protocol(InitCause::Io(e))),
            ),
            (ClientState::AwaitResponseHeader, ClientEvent::Failed(e)) => self.go(
                ClientState::Finished,
                ClientAction::Fail(V4ClientInitError::network_or_protocol(InitCause::Io(e))),
            ),
            (ClientState::AwaitResponse, ClientEvent::Failed(e)) => self.go(
                ClientState::Finished,
                ClientAction::Fail(V4ClientInitError::network_or_protocol(InitCause::Io(e))),
            ),
            (_, ClientEvent::Failed(e)) => self.go(
                ClientState::Finished,
                ClientAction::Fail(InitError::Cause(InitCause::Io(e))),
            ),
            (ClientState::ExchangeSent, _) => self.go(
                ClientState::AwaitVersion,
                ClientAction::ReadHeader,
            ),
            (ClientState::RequestSent, _) => self.go(
                ClientState::AwaitResponseHeader,
                ClientAction::ReadHeader,
            ),
            (ClientState::MetadataSent { proto, memfd }, _) => {
                if memfd {
                    self.go(ClientState::AwaitReady { proto }, ClientAction::ReadHeader)
                } else if proto == 2 {
                    self.done(2)
                } else {
                    self.go(ClientState::AwaitAck { proto }, ClientAction::ReadHeader)
                }
            },
            (ClientState::FdsSent { proto }, _) => self.go(
                ClientState::AwaitAck { proto },
                ClientAction::ReadHeader,
            ),
            (_, _) => ClientAction::ReadHeader,
        }
    }
}

} // verus!
