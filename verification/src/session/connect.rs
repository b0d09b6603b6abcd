//! How a client names its shared memory and reaches the server.

use vstd::prelude::*;
use vstd::string::StringExecFns;
use vstd::utf8;

use crate::config::{Config, ProtocolConfig, ProtocolMode, WakeupMode};
use crate::consts::{MemMapType, EPOCH_INFO_MAX_LEN, FILE_NAME_MAX_LEN, QUEUE_INFO_MAX_LEN};
use crate::error::Error;
use crate::protocol::initializer::{InitCause, InitError, V4ClientInitError};
use crate::session::startup::StartError;
use crate::text;

verus! {

/// The prefix of the paths of a client, with its process id.
pub open spec fn own_prefix(prefix: Seq<char>, pid: u32) -> Seq<char> {
    prefix + "_"@ + text::decimal(pid as nat)
}

/// The prefix with the epoch of the client, where it has one.
pub open spec fn epoch_prefix(prefix: Seq<char>, epoch_id: u64, rand_id: u64) -> Seq<char> {
    if epoch_id > 0 {
        prefix + "_epoch_"@ + text::decimal(epoch_id as nat) + "_"@ + text::decimal(rand_id as nat)
    } else {
        prefix
    }
}

/// The path of the queues of a session.
pub open spec fn queue_path(prefix: Seq<char>, session_id: usize) -> Seq<char> {
    prefix + "_queue_"@ + text::decimal(session_id as nat)
}

/// What is added to the prefix would make the name of a file too long.
pub open spec fn name_too_long(prefix: Seq<char>, mem_map_type: MemMapType) -> bool {
    &&& mem_map_type is MemMapTypeDevShmFile
    &&& utf8::encode_utf8(prefix).len() + EPOCH_INFO_MAX_LEN + QUEUE_INFO_MAX_LEN
        > FILE_NAME_MAX_LEN
}

/// Names the shared memory of a session.
///
/// The process id is added to the prefix each time, also where the name gets too long.
pub fn name_paths(
    config: &mut Config,
    session_id: usize,
    epoch_id: u64,
    rand_id: u64,
    pid: u32,
) -> (r: Result<(), Error>)
    ensures
        *final(config) == (Config {
            share_memory_path_prefix: final(config).share_memory_path_prefix,
            queue_path: final(config).queue_path,
            ..*old(config)
        }),
        ({
            let own = own_prefix(old(config).share_memory_path_prefix@, pid);
            let full = epoch_prefix(own, epoch_id, rand_id);
            if name_too_long(own, old(config).mem_map_type) {
                &&& r == Err::<(), Error>(Error::FileNameTooLong)
                &&& final(config).share_memory_path_prefix@ == own
                &&& final(config).queue_path == old(config).queue_path
            } else {
                &&& r is Ok
                &&& final(config).share_memory_path_prefix@ == full
                &&& final(config).queue_path@ == queue_path(full, session_id)
            }
        }),
{
    config.share_memory_path_prefix.append("_");
    text::push_decimal(&mut config.share_memory_path_prefix, pid as u64);
    let file: bool = match config.mem_map_type {
        MemMapType::MemMapTypeDevShmFile => true,
        _ => false,
    };
    let len: usize = config.share_memory_path_prefix.as_str().as_bytes().len();
    if file && len > FILE_NAME_MAX_LEN - EPOCH_INFO_MAX_LEN - QUEUE_INFO_MAX_LEN {
        return Err(Error::FileNameTooLong);
    }
    if epoch_id > 0 {
        config.share_memory_path_prefix.append("_epoch_");
        text::push_decimal(&mut config.share_memory_path_prefix, epoch_id);
        config.share_memory_path_prefix.append("_");
        text::push_decimal(&mut config.share_memory_path_prefix, rand_id);
    }
    proof {
        reveal_strlit("_");
    }
    if !config.share_memory_path_prefix.as_str().is_empty() {
        let mut path: String = config.share_memory_path_prefix.clone();
        path.append("_queue_");
        text::push_decimal(&mut path, session_id as u64);
        config.queue_path = path;
    }
    Ok(())
}

/// The sessions of a client have different queues.
pub proof fn law_sessions_have_their_own_queues(prefix: Seq<char>, a: usize, b: usize)
    requires
        a != b,
    ensures
        queue_path(prefix, a) != queue_path(prefix, b),
{
    let p = prefix + "_queue_"@;
    if queue_path(prefix, a) == queue_path(prefix, b) {
        assert(queue_path(prefix, a).skip(p.len() as int) =~= text::decimal(a as nat));
        assert(queue_path(prefix, b).skip(p.len() as int) =~= text::decimal(b as nat));
        text::law_decimal_tells_numbers_apart(a as nat, b as nat);
    }
}

/// Two clients with one prefix have different paths.
pub proof fn law_clients_have_their_own_paths(prefix: Seq<char>, p: u32, q: u32)
    requires
        p != q,
    ensures
        own_prefix(prefix, p) != own_prefix(prefix, q),
{
    let s = prefix + "_"@;
    if own_prefix(prefix, p) == own_prefix(prefix, q) {
        assert(own_prefix(prefix, p).skip(s.len() as int) =~= text::decimal(p as nat));
        assert(own_prefix(prefix, q).skip(s.len() as int) =~= text::decimal(q as nat));
        text::law_decimal_tells_numbers_apart(p as nat, q as nat);
    }
}

/// Why an older protocol did not help.
#[derive(Debug)]
pub enum FallbackError {
    /// The connection could not be made again.
    Connect(String),
    /// The session did not come up.
    Start(StartError),
}

/// Why a client has no session.
#[derive(Debug)]
pub enum ConnectError {
    /// The connection could not be made.
    Connect(String),
    /// The session did not come up.
    Start(StartError),
    /// The session did not come up with V4, nor with an older protocol.
    V4FallbackFailed { v4_error: StartError, fallback_error: FallbackError },
}

/// What the client waits for.
#[derive(Clone, Copy, Debug, PartialEq, Eq, Structural)]
pub enum ConnectState {
    Begin,
    Connecting,
    Starting,
    /// V4 failed: the connection is made again.
    ConnectingAgain,
    /// V4 failed: a session with an older protocol comes up.
    StartingAgain,
    Finished,
}

/// What came of an action.
#[derive(Debug)]
pub enum ConnectEvent {
    /// Nothing was done yet.
    Begin,
    Connected,
    ConnectFailed(String),
    Started,
    StartFailed(StartError),
}

/// What to do next.
#[derive(Debug)]
pub enum ConnectAction {
    /// Connect to the server.
    Connect,
    /// Bring a session up that asks for this.
    Start(ProtocolConfig),
    /// The session that came up is the one.
    Done,
    Fail(ConnectError),
}

/// A client that connects.
#[derive(Debug)]
pub struct ClientConnect {
    pub protocol: ProtocolConfig,
    pub state: ConnectState,
    pub v4_error: Option<StartError>,
}

impl ClientConnect {
    pub fn new(protocol: ProtocolConfig) -> (r: Self)
        ensures
            r == (ClientConnect { protocol, state: ConnectState::Begin, v4_error: None }),
    {
        ClientConnect { protocol, state: ConnectState::Begin, v4_error: None }
    }

    /// The event belongs to what is waited for.
    pub open spec fn expects(self, event: ConnectEvent) -> bool {
        match self.state {
            ConnectState::Begin => event is Begin,
            ConnectState::Connecting => event is Connected || event is ConnectFailed,
            ConnectState::Starting => event is Started || event is StartFailed,
            ConnectState::ConnectingAgain => (event is Connected || event is ConnectFailed)
                && self.v4_error is Some,
            ConnectState::StartingAgain => (event is Started || event is StartFailed)
                && self.v4_error is Some,
            ConnectState::Finished => false,
        }
    }

    /// An older protocol is tried after this failure.
    pub open spec fn falls_back(self, e: StartError) -> bool {
        self.protocol.mode == (ProtocolMode::V4 { fallback: true }) && e.allows_fallback()
    }

    /// What asks for the older protocols.
    pub open spec fn legacy() -> ProtocolConfig {
        ProtocolConfig {
            mode: ProtocolMode::Legacy,
            wakeup: crate::config::WakeupMode::Default,
        }
    }

    /// What is decided.
    pub open spec fn next(self, event: ConnectEvent) -> (Self, ConnectAction) {
        let go = |s: ConnectState, a: ConnectAction| (ClientConnect { state: s, ..self }, a);
        let fail = |e: ConnectError|
            (
                ClientConnect { state: ConnectState::Finished, v4_error: None, ..self },
                ConnectAction::Fail(e),
            );
        match (self.state, event) {
            (ConnectState::Begin, _) => go(ConnectState::Connecting, ConnectAction::Connect),
            (ConnectState::Connecting, ConnectEvent::ConnectFailed(e)) => fail(
                ConnectError::Connect(e),
            ),
            (ConnectState::Connecting, _) => go(
                ConnectState::Starting,
                ConnectAction::Start(self.protocol),
            ),
            (ConnectState::Starting, ConnectEvent::StartFailed(e)) => if self.falls_back(e) {
                (
                    ClientConnect {
                        state: ConnectState::ConnectingAgain,
                        v4_error: Some(e),
                        ..self
                    },
                    ConnectAction::Connect,
                )
            } else {
                fail(ConnectError::Start(e))
            },
            (ConnectState::ConnectingAgain, ConnectEvent::ConnectFailed(e)) => fail(
                ConnectError::V4FallbackFailed {
                    v4_error: self.v4_error->0,
                    fallback_error: FallbackError::Connect(e),
                },
            ),
            (ConnectState::ConnectingAgain, _) => go(
                ConnectState::StartingAgain,
                ConnectAction::Start(Self::legacy()),
            ),
            (ConnectState::StartingAgain, ConnectEvent::StartFailed(e)) => fail(
                ConnectError::V4FallbackFailed {
                    v4_error: self.v4_error->0,
                    fallback_error: FallbackError::Start(e),
                },
            ),
            (ConnectState::Starting, _)
            | (ConnectState::StartingAgain, _) => go(ConnectState::Finished, ConnectAction::Done),
            _ => arbitrary(),
        }
    }

    /// Takes what came of the last action and gives the next one.
    pub fn step(&mut self, event: ConnectEvent) -> (r: ConnectAction)
        requires
            old(self).expects(event),
        ensures
            (*final(self), r) == old(self).next(event),
    {
        match self.state {
            ConnectState::Begin => {
                self.state = ConnectState::Connecting;
                ConnectAction::Connect
            },
            ConnectState::Connecting => match event {
                ConnectEvent::ConnectFailed(e) => self.fail(ConnectError::Connect(e)),
                _ => {
                    self.state = ConnectState::Starting;
                    ConnectAction::Start(self.protocol)
                },
            },
            ConnectState::Starting => match event {
                ConnectEvent::StartFailed(e) => {
                    let fallback: bool = match self.protocol.mode {
                        ProtocolMode::V4 { fallback } => fallback,
                        ProtocolMode::Legacy => false,
                    };
                    if fallback && e.allows_fallback() {
                        self.state = ConnectState::ConnectingAgain;
                        self.v4_error = Some(e);
                        ConnectAction::Connect
                    } else {
                        self.fail(ConnectError::Start(e))
                    }
                },
                _ => {
                    self.state = ConnectState::Finished;
                    ConnectAction::Done
                },
            },
            ConnectState::ConnectingAgain => match event {
                ConnectEvent::ConnectFailed(e) => {
                    let v4_error: StartError = self.v4_error.take().unwrap();
                    self.fail(
                        ConnectError::V4FallbackFailed {
                            v4_error,
                            fallback_error: FallbackError::Connect(e),
                        },
                    )
                },
                _ => {
                    self.state = ConnectState::StartingAgain;
                    ConnectAction::Start(ProtocolConfig::default())
                },
            },
            ConnectState::StartingAgain => match event {
                ConnectEvent::StartFailed(e) => {
                    let v4_error: StartError = self.v4_error.take().unwrap();
                    self.fail(
                        ConnectError::V4FallbackFailed {
                            v4_error,
                            fallback_error: FallbackError::Start(e),
                        },
                    )
                },
                _ => {
                    self.state = ConnectState::Finished;
                    ConnectAction::Done
                },
            },
            ConnectState::Finished => {
                assert(false);
                ConnectAction::Done
            },
        }
    }

    fn fail(&mut self, e: ConnectError) -> (r: ConnectAction)
        ensures
            *final(self) == (ClientConnect {
                protocol: old(self).protocol,
                state: ConnectState::Finished,
                v4_error: None,
            }),
            r == ConnectAction::Fail(e),
    {
        self.state = ConnectState::Finished;
        self.v4_error = None;
        ConnectAction::Fail(e)
    }

    /// A client that was refused is told so: no older protocol is tried after the server refused
    /// the request, nor after an answer that makes no sense.
    pub proof fn law_refusal_is_final(self, e: StartError)
        requires
            self.state is Starting,
            !(e is Init && e->Init_0 is V4 && e->Init_0->V4_0 is NetworkOrProtocol),
        ensures
            self.next(ConnectEvent::StartFailed(e)).1 == ConnectAction::Fail(
                ConnectError::Start(e),
            ),
    {
    }

    /// An older protocol is tried at most once.
    pub proof fn law_falls_back_once(self, e: StartError)
        requires
            self.state is StartingAgain,
        ensures
            self.next(ConnectEvent::StartFailed(e)).1 is Fail,
    {
    }
}

/// A client begins with a connection, and asks over it for what it was told to ask for. A session
/// that comes up is the one.
pub proof fn law_client_asks_for_what_it_was_told(
    protocol: ProtocolConfig,
    a: &mut ClientConnect,
    b: &mut ClientConnect,
    c: &mut ClientConnect,
    first: ConnectAction,
    second: ConnectAction,
    third: ConnectAction,
)
    requires
        call_ensures(ClientConnect::new, (protocol,), *old(a)),
        call_ensures(ClientConnect::step, (a, ConnectEvent::Begin), first),
        *old(b) == *final(a),
        call_ensures(ClientConnect::step, (b, ConnectEvent::Connected), second),
        *old(c) == *final(b),
        call_ensures(ClientConnect::step, (c, ConnectEvent::Started), third),
    ensures
        first is Connect,
        second == ConnectAction::Start(protocol),
        third is Done,
        old(a).expects(ConnectEvent::Begin),
        old(b).expects(ConnectEvent::Connected),
        old(c).expects(ConnectEvent::Started),
        final(c).state == ConnectState::Finished,
{
}

/// A client that allows it tries the older protocols after V4 failed for a reason of the network or
/// the protocol, whatever wakeup it asked for: it connects again and starts a session that asks for
/// nothing but an older protocol. If that comes up it is the one.
pub proof fn law_client_falls_back(
    a: &mut ClientConnect,
    b: &mut ClientConnect,
    c: &mut ClientConnect,
    source: InitCause,
    first: ConnectAction,
    second: ConnectAction,
    third: ConnectAction,
)
    requires
        old(a).state == ConnectState::Starting,
        old(a).protocol.mode == (ProtocolMode::V4 { fallback: true }),
        call_ensures(
            ClientConnect::step,
            (
                a,
                ConnectEvent::StartFailed(
                    StartError::Init(
                        InitError::V4(V4ClientInitError::NetworkOrProtocol { source }),
                    ),
                ),
            ),
            first,
        ),
        *old(b) == *final(a),
        call_ensures(ClientConnect::step, (b, ConnectEvent::Connected), second),
        *old(c) == *final(b),
        call_ensures(ClientConnect::step, (c, ConnectEvent::Started), third),
    ensures
        first is Connect,
        second is Start,
        second->Start_0.mode == ProtocolMode::Legacy,
        second->Start_0.wakeup == WakeupMode::Default,
        third is Done,
        old(b).expects(ConnectEvent::Connected),
        old(c).expects(ConnectEvent::Started),
        final(c).protocol == old(a).protocol,
{
}

/// A client reports every other failure of its first attempt at once and tries nothing else: one
/// that does not allow an older protocol or did not ask for V4, and one that was refused, got an
/// answer of no use, or failed before it asked.
pub proof fn law_client_falls_back_only_then(a: &mut ClientConnect, e: StartError, r: ConnectAction)
    requires
        old(a).state == ConnectState::Starting,
        call_ensures(ClientConnect::step, (a, ConnectEvent::StartFailed(e)), r),
        old(a).protocol.mode != (ProtocolMode::V4 { fallback: true }) || match e {
            StartError::Init(InitError::V4(V4ClientInitError::NetworkOrProtocol { .. })) => false,
            _ => true,
        },
    ensures
        r == ConnectAction::Fail(ConnectError::Start(e)),
        final(a).state == ConnectState::Finished,
{
}

/// A client without a connection has no session, and says why. Where it was trying an older
/// protocol it tells both failures, and it does not try again.
pub proof fn law_client_tells_both_failures(
    a: &mut ClientConnect,
    b: &mut ClientConnect,
    c: &mut ClientConnect,
    why: String,
    v4: StartError,
    e: StartError,
    first: ConnectAction,
    second: ConnectAction,
    third: ConnectAction,
)
    requires
        old(a).state == ConnectState::Connecting,
        call_ensures(ClientConnect::step, (a, ConnectEvent::ConnectFailed(why)), first),
        old(b).state == ConnectState::ConnectingAgain,
        old(b).v4_error == Some(v4),
        call_ensures(ClientConnect::step, (b, ConnectEvent::ConnectFailed(why)), second),
        old(c).state == ConnectState::StartingAgain,
        old(c).v4_error == Some(v4),
        call_ensures(ClientConnect::step, (c, ConnectEvent::StartFailed(e)), third),
    ensures
        first == ConnectAction::Fail(ConnectError::Connect(why)),
        second == ConnectAction::Fail(
            ConnectError::V4FallbackFailed {
                v4_error: v4,
                fallback_error: FallbackError::Connect(why),
            },
        ),
        third == ConnectAction::Fail(
            ConnectError::V4FallbackFailed {
                v4_error: v4,
                fallback_error: FallbackError::Start(e),
            },
        ),
        final(a).state == ConnectState::Finished,
        final(b).state == ConnectState::Finished,
        final(c).state == ConnectState::Finished,
{
}

/// The failure that is told of V4 is the one that it had, whatever comes of the older protocol.
pub proof fn law_first_failure_is_remembered(
    a: &mut ClientConnect,
    b: &mut ClientConnect,
    c: &mut ClientConnect,
    source: InitCause,
    e: StartError,
    first: ConnectAction,
    second: ConnectAction,
    third: ConnectAction,
)
    requires
        old(a).state == ConnectState::Starting,
        old(a).protocol.mode == (ProtocolMode::V4 { fallback: true }),
        call_ensures(
            ClientConnect::step,
            (
                a,
                ConnectEvent::StartFailed(
                    StartError::Init(
                        InitError::V4(V4ClientInitError::NetworkOrProtocol { source }),
                    ),
                ),
            ),
            first,
        ),
        *old(b) == *final(a),
        call_ensures(ClientConnect::step, (b, ConnectEvent::Connected), second),
        *old(c) == *final(b),
        call_ensures(ClientConnect::step, (c, ConnectEvent::StartFailed(e)), third),
    ensures
        third == ConnectAction::Fail(
            ConnectError::V4FallbackFailed {
                v4_error: StartError::Init(
                    InitError::V4(V4ClientInitError::NetworkOrProtocol { source }),
                ),
                fallback_error: FallbackError::Start(e),
            },
        ),
{
}

/// The paths that a session is named with tell it from every other session of the same client, and
/// the client from every other with that prefix, wherever the name is not too long. Both begin with
/// what was configured.
pub proof fn law_named_paths_differ(
    a: &mut Config,
    b: &mut Config,
    x: usize,
    y: usize,
    pid: u32,
    ra: Result<(), Error>,
    rb: Result<(), Error>,
)
    requires
        old(a).share_memory_path_prefix@ == old(b).share_memory_path_prefix@,
        x != y,
        call_ensures(name_paths, (a, x, 0u64, 0u64, pid), ra),
        call_ensures(name_paths, (b, y, 0u64, 0u64, pid), rb),
        ra is Ok,
        rb is Ok,
    ensures
        final(a).queue_path@ != final(b).queue_path@,
        final(a).share_memory_path_prefix@ == final(b).share_memory_path_prefix@,
        old(a).share_memory_path_prefix@.is_prefix_of(final(a).share_memory_path_prefix@),
        final(a).share_memory_path_prefix@.is_prefix_of(final(a).queue_path@),
{
    law_sessions_have_their_own_queues(final(a).share_memory_path_prefix@, x, y);
    assert(final(a).share_memory_path_prefix@.take(
        old(a).share_memory_path_prefix@.len() as int,
    ) =~= old(a).share_memory_path_prefix@);
    assert(final(a).queue_path@.take(final(a).share_memory_path_prefix@.len() as int)
        =~= final(a).share_memory_path_prefix@);
}

/// A name is refused only where the memory is in files and the prefix, with the process id, leaves
/// no room for what is added. Nothing else of the configuration changes.
pub proof fn law_names_are_refused_only_when_too_long(
    c: &mut Config,
    session_id: usize,
    epoch_id: u64,
    rand_id: u64,
    pid: u32,
    r: Result<(), Error>,
)
    requires
        call_ensures(name_paths, (c, session_id, epoch_id, rand_id, pid), r),
    ensures
        r is Err ==> r->Err_0 is FileNameTooLong && old(c).mem_map_type is MemMapTypeDevShmFile,
        old(c).mem_map_type is MemMapTypeMemFd ==> r is Ok,
        final(c).mem_map_type == old(c).mem_map_type,
        final(c).queue_cap == old(c).queue_cap,
        final(c).protocol == old(c).protocol,
        final(c).buffer_slice_sizes == old(c).buffer_slice_sizes,
        final(c).share_memory_buffer_cap == old(c).share_memory_buffer_cap,
        r is Ok ==> final(c).queue_path@ == final(c).share_memory_path_prefix@ + "_queue_"@
            + text::decimal(session_id as nat),
        epoch_id == 0 && r is Ok ==> final(c).share_memory_path_prefix@
            == old(c).share_memory_path_prefix@ + "_"@ + text::decimal(pid as nat),
        epoch_id > 0 && r is Ok ==> final(c).share_memory_path_prefix@
            == old(c).share_memory_path_prefix@ + "_"@ + text::decimal(pid as nat) + "_epoch_"@
            + text::decimal(epoch_id as nat) + "_"@ + text::decimal(rand_id as nat),
        r is Ok && old(c).mem_map_type is MemMapTypeDevShmFile ==> utf8::encode_utf8(
            old(c).share_memory_path_prefix@ + "_"@ + text::decimal(pid as nat),
        ).len() + EPOCH_INFO_MAX_LEN + QUEUE_INFO_MAX_LEN <= FILE_NAME_MAX_LEN,
{
}

} // verus!
