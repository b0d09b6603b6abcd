//! How a session comes up, one step after the other.
//!
//! The startup decides and never talks: each step takes what came of the last action and gives
//! the next one.

use std::time::Duration;

use vstd::prelude::*;

use crate::config::{Config, ConfigError, Platform};
use crate::protocol::initializer::{
    is_v4_fallback_error, InitError, ProtocolInitialized, V4ClientInitError,
};
use crate::protocol::negotiation::NegotiatedFeature;
use crate::protocol::setup;
use crate::protocol::setup::initial_client_proto_version;

verus! {

/// Why a session did not come up.
#[derive(Debug)]
pub enum StartError {
    /// The configuration is refused.
    Config(ConfigError),
    /// The connection could not be made blocking, or nonblocking again.
    Blocking(String),
    /// The shared memory could not be set up.
    Managers(String),
    /// The peers did not agree on a protocol.
    Init(InitError),
    /// The server agreed on a protocol and has no shared memory.
    NoSharedMemory,
}

impl StartError {
    /// A client that allows it takes an older protocol after this failure.
    pub open spec fn spec_allows_fallback(&self) -> bool {
        *self is Init && self->Init_0 is V4 && self->Init_0->V4_0 is NetworkOrProtocol
    }

    /// Whether a client that allows it takes an older protocol after this failure.
    #[verifier::when_used_as_spec(spec_allows_fallback)]
    pub fn allows_fallback(&self) -> (r: bool)
        ensures
            r == self.allows_fallback(),
    {
        match self {
            StartError::Init(e) => is_v4_fallback_error(e),
            _ => false,
        }
    }
}

/// What the startup waits for.
#[derive(Clone, Copy, Debug, PartialEq, Eq, Structural)]
pub enum StartState {
    Start,
    /// The connection is made blocking.
    AwaitBlocking,
    /// A client sets up the shared memory.
    AwaitManagers,
    /// The peers agree on a protocol.
    AwaitProtocol,
    /// A client gives the shared memory back after a failure.
    AwaitRelease,
    /// The connection is made nonblocking.
    AwaitNonblocking,
    Finished,
}

/// What came of an action.
#[derive(Debug)]
pub enum StartEvent {
    /// Nothing was done yet.
    Begin,
    /// The connection is as it was asked for, the shared memory is there, or it is given back.
    Done,
    /// The peers agreed. Only a server that mapped the shared memory says that it has it.
    Agreed { initialized: ProtocolInitialized, shared_memory: bool },
    /// The peers did not agree.
    NotAgreed(InitError),
    /// The action failed.
    Failed(String),
}

/// What to do next.
#[derive(Debug)]
pub enum StartAction {
    /// Make the connection blocking.
    SetBlocking,
    /// Set up the shared memory for this protocol.
    CreateManagers(u8),
    /// Agree with the server.
    AgreeAsClient,
    /// Agree with the client.
    AgreeAsServer,
    /// Unmap the queues and give up one hold on the buffers.
    Release,
    /// Make the connection nonblocking.
    SetNonblocking,
    /// The session is there.
    Ready(ProtocolInitialized),
    Fail(StartError),
}

/// A session that comes up.
#[derive(Debug)]
pub struct Startup {
    pub config: Config,
    pub platform: Platform,
    pub is_client: bool,
    pub state: StartState,
    pub initialized: Option<ProtocolInitialized>,
    pub failure: Option<InitError>,
}

impl Startup {
    pub fn new(config: Config, platform: Platform, is_client: bool) -> (r: Self)
        ensures
            r == (Startup {
                config,
                platform,
                is_client,
                state: StartState::Start,
                initialized: None,
                failure: None,
            }),
    {
        Startup {
            config,
            platform,
            is_client,
            state: StartState::Start,
            initialized: None,
            failure: None,
        }
    }

    /// The event belongs to what is waited for.
    pub open spec fn expects(self, event: StartEvent) -> bool {
        match self.state {
            StartState::Start => event is Begin && self.config.addable(),
            StartState::AwaitBlocking
            | StartState::AwaitManagers => event is Done || event is Failed,
            StartState::AwaitProtocol => event is Agreed || event is NotAgreed,
            StartState::AwaitRelease => event is Done && self.failure is Some,
            StartState::AwaitNonblocking => (event is Done || event is Failed)
                && self.initialized is Some,
            StartState::Finished => false,
        }
    }

    /// What is decided, the configuration aside.
    pub open spec fn next(self, event: StartEvent) -> (
        StartState,
        Option<ProtocolInitialized>,
        Option<InitError>,
        StartAction,
    ) {
        let fail = |e: StartError|
            (StartState::Finished, self.initialized, self.failure, StartAction::Fail(e));
        let go = |s: StartState, a: StartAction| (s, self.initialized, self.failure, a);
        match (self.state, event) {
            (StartState::Start, _) => match self.config.verdict(self.platform) {
                Ok(_) => go(StartState::AwaitBlocking, StartAction::SetBlocking),
                Err(e) => fail(StartError::Config(e)),
            },
            (StartState::AwaitBlocking, StartEvent::Failed(e)) => fail(StartError::Blocking(e)),
            (StartState::AwaitBlocking, _) => if self.is_client {
                go(
                    StartState::AwaitManagers,
                    StartAction::CreateManagers(
                        setup::spec_initial_version(
                            self.config.protocol.mode,
                            self.config.mem_map_type,
                        ),
                    ),
                )
            } else {
                go(StartState::AwaitProtocol, StartAction::AgreeAsServer)
            },
            (StartState::AwaitManagers, StartEvent::Failed(e)) => fail(StartError::Managers(e)),
            (StartState::AwaitManagers, _) => go(
                StartState::AwaitProtocol,
                StartAction::AgreeAsClient,
            ),
            (StartState::AwaitProtocol, StartEvent::NotAgreed(e)) => if self.is_client {
                (StartState::AwaitRelease, self.initialized, Some(e), StartAction::Release)
            } else {
                fail(StartError::Init(e))
            },
            (
                StartState::AwaitProtocol,
                StartEvent::Agreed { initialized, shared_memory },
            ) => if !self.is_client && !shared_memory {
                fail(StartError::NoSharedMemory)
            } else {
                (
                    StartState::AwaitNonblocking,
                    Some(initialized),
                    self.failure,
                    StartAction::SetNonblocking,
                )
            },
            (StartState::AwaitRelease, _) => (
                StartState::Finished,
                self.initialized,
                None,
                StartAction::Fail(StartError::Init(self.failure->0)),
            ),
            (StartState::AwaitNonblocking, StartEvent::Failed(e)) => fail(StartError::Blocking(e)),
            (StartState::AwaitNonblocking, _) => go(
                StartState::Finished,
                StartAction::Ready(self.initialized->0),
            ),
            _ => arbitrary(),
        }
    }

    /// Takes what came of the last action and gives the next one.
    pub fn step(&mut self, event: StartEvent) -> (r: StartAction)
        requires
            old(self).expects(event),
        ensures
            ({
                let (state, initialized, failure, action) = old(self).next(event);
                &&& final(self).state == state
                &&& final(self).initialized == initialized
                &&& final(self).failure == failure
                &&& r == action
            }),
            final(self).platform == old(self).platform,
            final(self).is_client == old(self).is_client,
            old(self).state != StartState::Start ==> final(self).config == old(self).config,
            old(self).state == StartState::Start ==> {
                &&& final(self).config.same_elsewhere(old(self).config)
                &&& final(self).config.buffer_slice_sizes@ == old(self).config.sizes_after()
                &&& final(self).config.queue_cap == old(self).config.queue_cap_after()
            },
    {
        match self.state {
            StartState::Start => match self.config.verify_on(self.platform) {
                Ok(_) => {
                    self.state = StartState::AwaitBlocking;
                    StartAction::SetBlocking
                },
                Err(e) => {
                    self.state = StartState::Finished;
                    StartAction::Fail(StartError::Config(e))
                },
            },
            StartState::AwaitBlocking => match event {
                StartEvent::Failed(e) => {
                    self.state = StartState::Finished;
                    StartAction::Fail(StartError::Blocking(e))
                },
                _ => if self.is_client {
                    self.state = StartState::AwaitManagers;
                    StartAction::CreateManagers(initial_client_proto_version(&self.config))
                } else {
                    self.state = StartState::AwaitProtocol;
                    StartAction::AgreeAsServer
                },
            },
            StartState::AwaitManagers => match event {
                StartEvent::Failed(e) => {
                    self.state = StartState::Finished;
                    StartAction::Fail(StartError::Managers(e))
                },
                _ => {
                    self.state = StartState::AwaitProtocol;
                    StartAction::AgreeAsClient
                },
            },
            StartState::AwaitProtocol => match event {
                StartEvent::Agreed { initialized, shared_memory } => {
                    if !self.is_client && !shared_memory {
                        self.state = StartState::Finished;
                        StartAction::Fail(StartError::NoSharedMemory)
                    } else {
                        self.initialized = Some(initialized);
                        self.state = StartState::AwaitNonblocking;
                        StartAction::SetNonblocking
                    }
                },
                StartEvent::NotAgreed(e) => {
                    if self.is_client {
                        self.failure = Some(e);
                        self.state = StartState::AwaitRelease;
                        StartAction::Release
                    } else {
                        self.state = StartState::Finished;
                        StartAction::Fail(StartError::Init(e))
                    }
                },
                _ => {
                    assert(false);
                    StartAction::Release
                },
            },
            StartState::AwaitRelease => {
                self.state = StartState::Finished;
                StartAction::Fail(StartError::Init(self.failure.take().unwrap()))
            },
            StartState::AwaitNonblocking => match event {
                StartEvent::Failed(e) => {
                    self.state = StartState::Finished;
                    StartAction::Fail(StartError::Blocking(e))
                },
                _ => {
                    self.state = StartState::Finished;
                    StartAction::Ready(self.initialized.unwrap())
                },
            },
            StartState::Finished => {
                assert(false);
                StartAction::Release
            },
        }
    }

    /// A client that did not agree with the server gives the shared memory back before it
    /// reports the failure.
    pub proof fn law_failed_client_gives_memory_back(self, e: InitError)
        requires
            self.state is AwaitProtocol,
            self.is_client,
        ensures
            self.next(StartEvent::NotAgreed(e)).3 == StartAction::Release,
            (Startup { state: StartState::AwaitRelease, failure: Some(e), ..self }).next(
                StartEvent::Done,
            ).3 == StartAction::Fail(StartError::Init(e)),
            self.next(StartEvent::NotAgreed(e)).0 is AwaitRelease,
            self.next(StartEvent::NotAgreed(e)).2 == Some(e),
    {
    }
}

/// The tasks of a session beside those that read and write the connection.
#[derive(Clone, Copy, Debug)]
pub struct Tasks {
    /// Look into the queue this often.
    pub polling: Option<Duration>,
    /// Wait for this eventfd.
    pub eventfd: Option<i32>,
}

/// The tasks that a session needs beside those that read and write the connection.
pub fn tasks(initialized: &ProtocolInitialized) -> (r: Tasks)
    ensures
        r.polling == match initialized.feature {
            NegotiatedFeature::EventQueuePolling { interval } => Some(interval),
            _ => None,
        },
        r.eventfd == match initialized.eventfd {
            Some(pair) => Some(pair.wakeup_recv),
            None => None,
        },
{
    let polling: Option<Duration> = match initialized.feature {
        NegotiatedFeature::EventQueuePolling { interval } => Some(interval),
        _ => None,
    };
    let eventfd: Option<i32> = match initialized.eventfd {
        Some(pair) => Some(pair.wakeup_recv),
        None => None,
    };
    Tasks { polling, eventfd }
}

/// A client whose configuration is found good sets up its shared memory for the protocol that it
/// asks for, agrees with the server and is ready with what the two agreed on.
pub proof fn law_client_comes_up(
    config: Config,
    platform: Platform,
    checked: &mut Config,
    verdict: Result<(), ConfigError>,
    s: (&mut Startup, &mut Startup, &mut Startup, &mut Startup, &mut Startup),
    initialized: ProtocolInitialized,
    shared_memory: bool,
    a: (StartAction, StartAction, StartAction, StartAction, StartAction),
)
    requires
        *old(checked) == config,
        call_ensures(Config::verify_on, (checked, platform), verdict),
        verdict is Ok,
        call_ensures(Startup::new, (config, platform, true), *s.0),
        call_ensures(Startup::step, (s.0, StartEvent::Begin), a.0),
        *s.1 == *final(s.0),
        call_ensures(Startup::step, (s.1, StartEvent::Done), a.1),
        *s.2 == *final(s.1),
        call_ensures(Startup::step, (s.2, StartEvent::Done), a.2),
        *s.3 == *final(s.2),
        call_ensures(
            Startup::step,
            (s.3, (StartEvent::Agreed { initialized, shared_memory })),
            a.3,
        ),
        *s.4 == *final(s.3),
        call_ensures(Startup::step, (s.4, StartEvent::Done), a.4),
    ensures
        a.0 is SetBlocking,
        a.1 == StartAction::CreateManagers(
            if config.protocol.mode is V4 {
                4
            } else if config.mem_map_type is MemMapTypeMemFd {
                3
            } else {
                2
            },
        ),
        a.2 is AgreeAsClient,
        a.3 is SetNonblocking,
        a.4 == StartAction::Ready(initialized),
        final(s.4).state == StartState::Finished,
{
}

/// A server agrees with its client before anything else and is ready with what the two agreed on,
/// if it mapped the client's shared memory; without it there is no session.
pub proof fn law_server_comes_up(
    config: Config,
    platform: Platform,
    checked: &mut Config,
    verdict: Result<(), ConfigError>,
    s: (&mut Startup, &mut Startup, &mut Startup, &mut Startup),
    initialized: ProtocolInitialized,
    shared_memory: bool,
    a: (StartAction, StartAction, StartAction, StartAction),
)
    requires
        *old(checked) == config,
        call_ensures(Config::verify_on, (checked, platform), verdict),
        verdict is Ok,
        call_ensures(Startup::new, (config, platform, false), *s.0),
        call_ensures(Startup::step, (s.0, StartEvent::Begin), a.0),
        *s.1 == *final(s.0),
        call_ensures(Startup::step, (s.1, StartEvent::Done), a.1),
        *s.2 == *final(s.1),
        call_ensures(
            Startup::step,
            (s.2, (StartEvent::Agreed { initialized, shared_memory })),
            a.2,
        ),
        *s.3 == *final(s.2),
        shared_memory ==> call_ensures(Startup::step, (s.3, StartEvent::Done), a.3),
    ensures
        a.0 is SetBlocking,
        a.1 is AgreeAsServer,
        shared_memory ==> a.2 is SetNonblocking && a.3 == StartAction::Ready(initialized),
        !shared_memory ==> a.2 == StartAction::Fail(StartError::NoSharedMemory),
{
}

/// A session with a configuration that is refused does not come up, and says what is wrong with it.
pub proof fn law_bad_configuration_is_refused(
    config: Config,
    platform: Platform,
    is_client: bool,
    checked: &mut Config,
    e: ConfigError,
    s: &mut Startup,
    r: StartAction,
)
    requires
        *old(checked) == config,
        call_ensures(Config::verify_on, (checked, platform), Err(e)),
        call_ensures(Startup::new, (config, platform, is_client), *old(s)),
        call_ensures(Startup::step, (s, StartEvent::Begin), r),
    ensures
        r == StartAction::Fail(StartError::Config(e)),
        final(s).state == StartState::Finished,
{
}

/// A failure ends the startup and is told. Peers that do not agree give nothing away: a client gives
/// its shared memory back first and then tells why, a server tells at once.
pub proof fn law_failed_startup_tells_why(
    s: &mut Startup,
    why: String,
    a: StartAction,
    t: &mut Startup,
    u: &mut Startup,
    e: InitError,
    b: StartAction,
    c: StartAction,
)
    requires
        old(s).state == StartState::AwaitBlocking || old(s).state == StartState::AwaitManagers
            || old(s).state == StartState::AwaitNonblocking,
        call_ensures(Startup::step, (s, StartEvent::Failed(why)), a),
        old(t).state == StartState::AwaitProtocol,
        call_ensures(Startup::step, (t, StartEvent::NotAgreed(e)), b),
        *old(u) == *final(t),
        old(t).is_client ==> call_ensures(Startup::step, (u, StartEvent::Done), c),
    ensures
        final(s).state == StartState::Finished,
        a == StartAction::Fail(
            if old(s).state == StartState::AwaitManagers {
                StartError::Managers(why)
            } else {
                StartError::Blocking(why)
            },
        ),
        old(t).is_client ==> b is Release && c == StartAction::Fail(StartError::Init(e)),
        !old(t).is_client ==> b == StartAction::Fail(StartError::Init(e)),
{
}

/// Only a failure of the network or the protocol in the V4 negotiation lets a client try an older
/// protocol.
pub proof fn law_only_v4_network_failures_allow_fallback(e: StartError, r: bool)
    requires
        call_ensures(StartError::allows_fallback, (&e,), r),
    ensures
        r <==> match e {
            StartError::Init(InitError::V4(V4ClientInitError::NetworkOrProtocol { .. })) => true,
            _ => false,
        },
{
}

/// A session looks into its queue as often as was agreed on, and waits on the eventfd that it
/// receives on; without either it has no further task.
pub proof fn law_tasks_follow_the_agreement(i: ProtocolInitialized, r: Tasks)
    requires
        call_ensures(tasks, (&i,), r),
    ensures
        r.polling is Some <==> i.feature is EventQueuePolling,
        i.feature is EventQueuePolling ==> r.polling == Some(i.feature->interval),
        r.eventfd is Some <==> i.eventfd is Some,
        i.eventfd matches Some(pair) ==> r.eventfd == Some(pair.wakeup_recv),
{
}

} // verus!
