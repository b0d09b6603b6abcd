//! What the client and the server have in common when they set up a session.

use vstd::prelude::*;

use crate::consts::HEADER_SIZE;
use crate::error::Error;
use crate::protocol::event;
use crate::protocol::event::{check_event_valid, EventType};
use crate::protocol::header;
use crate::protocol::header::Header;
use crate::protocol::negotiation::{
    FeatureView, NegotiatedFeature, NegotiationError, NegotiationFailure, MSG_VERSION_V4,
    PROTO_VERSION_V4,
};
use crate::protocol::wire;

verus! {

/// The descriptors of the eventfds, each named by what this side does with it.
#[derive(Clone, Copy, Debug, PartialEq, Eq, Structural)]
pub struct EventFdPair {
    pub wakeup_send: i32,
    pub wakeup_recv: i32,
}

/// What both sides agreed on.
#[derive(Clone, Copy, Debug, PartialEq, Eq)]
pub struct ProtocolInitialized {
    pub proto_version: u8,
    pub msg_version: u8,
    pub feature: NegotiatedFeature,
    pub eventfd: Option<EventFdPair>,
}

/// What both sides agreed on, the feature by its view.
pub struct InitializedView {
    pub proto_version: u8,
    pub msg_version: u8,
    pub feature: FeatureView,
    pub eventfd: Option<EventFdPair>,
}

impl ProtocolInitialized {
    pub open spec fn view(&self) -> InitializedView {
        InitializedView {
            proto_version: self.proto_version,
            msg_version: self.msg_version,
            feature: self.feature.view(),
            eventfd: self.eventfd,
        }
    }

    pub fn new(
        proto_version: u8,
        msg_version: u8,
        feature: NegotiatedFeature,
        eventfd: Option<EventFdPair>,
    ) -> (r: Self)
        ensures
            r == (ProtocolInitialized { proto_version, msg_version, feature, eventfd }),
    {
        ProtocolInitialized { proto_version, msg_version, feature, eventfd }
    }

    /// The outcome of a protocol before V4.
    pub fn legacy(version: u8) -> (r: Self)
        ensures
            r == (ProtocolInitialized {
                proto_version: version,
                msg_version: version,
                feature: NegotiatedFeature::NoFeature,
                eventfd: None,
            }),
    {
        Self::new(version, version, NegotiatedFeature::NoFeature, None)
    }
}

/// The version in the headers of a protocol.
pub open spec fn spec_msg_version(proto: u8) -> u8 {
    if proto == PROTO_VERSION_V4 {
        MSG_VERSION_V4
    } else {
        proto
    }
}

/// The version in the headers of a protocol.
#[verifier::when_used_as_spec(spec_msg_version)]
pub fn msg_version(proto: u8) -> (r: u8)
    ensures
        r == msg_version(proto),
{
    if proto == PROTO_VERSION_V4 {
        MSG_VERSION_V4
    } else {
        proto
    }
}

/// Why a single exchange failed.
#[derive(Debug)]
pub enum InitCause {
    /// The connection failed.
    Io(String),
    /// A header is refused.
    Event(Error),
    /// An event of another type was expected.
    Unexpected { expected: u8, got: u8 },
    /// A message says that it is shorter than its header.
    BadLength(u32),
    /// A message holds no JSON.
    Json(String),
    /// The settings of a message are of no use.
    Settings(NegotiationFailure),
}

/// Why the V4 negotiation of a client failed.
#[derive(Debug)]
pub enum V4ClientInitError {
    /// The connection failed or the peer speaks something else.
    NetworkOrProtocol { source: InitCause },
    /// The peer refused.
    Rejected(NegotiationError),
    /// The peer selected another protocol.
    UnsupportedProtocol(u8),
    /// The peer's answer is of no use.
    InvalidResponse { source: InitCause },
}

/// Why a session could not be set up.
#[derive(Debug)]
pub enum InitError {
    /// An exchange failed outside of the V4 negotiation.
    Cause(InitCause),
    /// The V4 negotiation of a client failed.
    V4(V4ClientInitError),
    /// The peer speaks a protocol that is not supported.
    UnsupportedVersion(u8),
    /// The client asks for V4 and does not take it.
    ClientWithoutV4,
    /// The eventfd wakeup needs memfd shared memory.
    EventFdWithoutMemfd,
}

impl V4ClientInitError {
    pub fn network_or_protocol(source: InitCause) -> (r: InitError)
        ensures
            r == InitError::V4(V4ClientInitError::NetworkOrProtocol { source }),
    {
        InitError::V4(V4ClientInitError::NetworkOrProtocol { source })
    }

    pub fn rejected(err: NegotiationError) -> (r: InitError)
        ensures
            r == InitError::V4(V4ClientInitError::Rejected(err)),
    {
        InitError::V4(V4ClientInitError::Rejected(err))
    }

    pub fn unsupported_protocol(version: u8) -> (r: InitError)
        ensures
            r == InitError::V4(V4ClientInitError::UnsupportedProtocol(version)),
    {
        InitError::V4(V4ClientInitError::UnsupportedProtocol(version))
    }

    pub fn invalid_response(source: InitCause) -> (r: InitError)
        ensures
            r == InitError::V4(V4ClientInitError::InvalidResponse { source }),
    {
        InitError::V4(V4ClientInitError::InvalidResponse { source })
    }

    pub fn is_network_or_protocol(&self) -> (r: bool)
        ensures
            r == (self is NetworkOrProtocol),
    {
        matches!(self, V4ClientInitError::NetworkOrProtocol { .. })
    }
}

/// Whether a client that allows it takes an older protocol after this failure: only after one of
/// the network or the protocol in the V4 negotiation, never after a refusal.
pub fn is_v4_fallback_error(err: &InitError) -> (r: bool)
    ensures
        r == (err is V4 && err->V4_0 is NetworkOrProtocol),
{
    match err {
        InitError::V4(e) => e.is_network_or_protocol(),
        _ => false,
    }
}

/// What is wrong with a header where an event of one type is expected.
pub open spec fn awaited(h: Header, expected: u8) -> Result<(), InitCause> {
    match event::event_check(h) {
        Err(e) => Err(InitCause::Event(e)),
        Ok(_) => if h.msg_type().0 != expected {
            Err(InitCause::Unexpected { expected, got: h.msg_type().0 })
        } else {
            Ok(())
        },
    }
}

/// Checks a header that was read where an event of one type is expected.
pub fn wait_event_header(h: &Header, expect_event_type: u8) -> (r: Result<(), InitCause>)
    ensures
        r == awaited(*h, expect_event_type),
{
    match check_event_valid(h) {
        Err(e) => Err(InitCause::Event(e)),
        Ok(_) => {
            let got: u8 = h.msg_type().inner();
            if got != expect_event_type {
                Err(InitCause::Unexpected { expected: expect_event_type, got })
            } else {
                Ok(())
            }
        },
    }
}

/// A message of the negotiation around its JSON.
pub open spec fn negotiation_frame(payload: Seq<u8>) -> Seq<u8> {
    header::frame(
        ((HEADER_SIZE + payload.len()) % 0x1_0000_0000) as u32,
        MSG_VERSION_V4,
        EventType::TYPE_NEGOTIATION,
    ) + payload
}

/// Puts the JSON of a request or a response into a message.
pub fn write_negotiation(payload: &[u8]) -> (r: Vec<u8>)
    requires
        HEADER_SIZE + payload@.len() <= usize::MAX,
    ensures
        r@ == negotiation_frame(payload@),
{
    let total: usize = 8 + payload.len();
    let mut h = Header::new();
    h.encode(
        (total as u64 % 0x1_0000_0000) as u32,
        MSG_VERSION_V4,
        EventType(EventType::TYPE_NEGOTIATION),
    );
    let mut data: Vec<u8> = Vec::new();
    wire::push_all(&mut data, h.as_slice());
    wire::push_all(&mut data, payload);
    assert(data@ =~= negotiation_frame(payload@));
    data
}

/// The message says how long it is, and the peer finds the JSON behind the header.
pub proof fn law_negotiation_reads_back(payload: Seq<u8>, h: Header)
    requires
        HEADER_SIZE + payload.len() <= u32::MAX,
        h.0@ == negotiation_frame(payload).take(HEADER_SIZE as int),
    ensures
        awaited(h, EventType::TYPE_NEGOTIATION) is Ok,
        h.length() == negotiation_frame(payload).len(),
        h.version() == MSG_VERSION_V4,
        negotiation_frame(payload).skip(HEADER_SIZE as int) == payload,
{
    let n = (HEADER_SIZE + payload.len()) as u32;
    let f = header::frame(n, MSG_VERSION_V4, EventType::TYPE_NEGOTIATION);
    assert(negotiation_frame(payload).take(HEADER_SIZE as int) =~= f);
    Header::law_header_reads_back(h, n, MSG_VERSION_V4, EventType::TYPE_NEGOTIATION);
    assert(negotiation_frame(payload).skip(HEADER_SIZE as int) =~= payload);
}

/// A client may fall back after a failure of the network or the protocol, and after no other that
/// the negotiation can end with.
pub proof fn law_only_lost_negotiations_fall_back(
    cause: InitCause,
    refusal: NegotiationError,
    version: u8,
    a: InitError,
    b: InitError,
    c: InitError,
    d: InitError,
    x: bool,
    y: bool,
    z: bool,
    w: bool,
    v: bool,
)
    requires
        call_ensures(V4ClientInitError::network_or_protocol, (cause,), a),
        call_ensures(V4ClientInitError::rejected, (refusal,), b),
        call_ensures(V4ClientInitError::unsupported_protocol, (version,), c),
        call_ensures(V4ClientInitError::invalid_response, (cause,), d),
        call_ensures(is_v4_fallback_error, (&a,), x),
        call_ensures(is_v4_fallback_error, (&b,), y),
        call_ensures(is_v4_fallback_error, (&c,), z),
        call_ensures(is_v4_fallback_error, (&d,), w),
        call_ensures(is_v4_fallback_error, (&InitError::Cause(cause),), v),
    ensures
        x,
        !y && !z && !w && !v,
{
}

/// An event is taken where its magic number is right and its type is the one that was expected.
pub proof fn law_expected_events_are_taken(h: Header, expected: u8, r: Result<(), InitCause>)
    requires
        call_ensures(wait_event_header, (&h, expected), r),
    ensures
        r is Ok <==> h.0@[4] == 0x77 && h.0@[5] == 0x58 && h.0@[7] == expected && expected <= 10,
        h.0@[4] != 0x77 || h.0@[5] != 0x58 ==> r == Err::<(), InitCause>(
            InitCause::Event(Error::InvalidVersion),
        ),
        h.0@[4] == 0x77 && h.0@[5] == 0x58 && h.0@[7] > 10 ==> r == Err::<(), InitCause>(
            InitCause::Event(Error::InvalidMsgType),
        ),
        h.0@[4] == 0x77 && h.0@[5] == 0x58 && h.0@[7] <= 10 && h.0@[7] != expected ==> r == Err::<
            (),
            InitCause,
        >(InitCause::Unexpected { expected, got: h.0@[7] }),
{
}

/// The JSON of a negotiation comes behind a header that says how long the message is, that it is of
/// the negotiation and that its headers are those of V4.
pub proof fn law_negotiation_is_framed(
    payload: &[u8],
    r: Vec<u8>,
    buf: &[u8],
    h: Header,
    ok: Result<(), InitCause>,
)
    requires
        call_ensures(write_negotiation, (payload,), r),
        8 + payload@.len() <= u32::MAX,
        buf@ == r@,
        call_ensures(Header::read, (buf, 0), h),
        call_ensures(wait_event_header, (&h, 10), ok),
    ensures
        r@.len() == 8 + payload@.len(),
        r@.skip(8) =~= payload@,
        ok is Ok,
        wire::be32_at(r@, 0) == r@.len(),
        r@[6] == 0,
{
    assert(r@.subrange(0, 8) =~= r@.take(8));
    law_negotiation_reads_back(payload@, h);
}

} // verus!
