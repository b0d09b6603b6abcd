//! The events that peers send each other.

use vstd::prelude::*;
use vstd::string::StringExecFns;

use crate::consts::{HEADER_SIZE, MAGIC_NUMBER};
use crate::error::Error;
use crate::protocol::header;
use crate::protocol::header::Header;
use crate::protocol::wire;
use crate::text;

verus! {

/// The type of an event.
#[derive(Clone, Copy, Debug, PartialEq, Eq, Structural)]
pub struct EventType(pub u8);

pub const MIN_EVENT_TYPE: u8 = 0;

pub const MAX_EVENT_TYPE: u8 = 10;

impl EventType {
    pub const TYPE_SHARE_MEMORY_BY_FILE_PATH: u8 = 0;

    /// Tells the peer to consume the queue.
    pub const TYPE_POLLING: u8 = 1;

    /// Tells the peer that a stream is closed.
    pub const TYPE_STREAM_CLOSE: u8 = 2;

    /// Carries data that did not fit the shared memory.
    pub const TYPE_FALLBACK_DATA: u8 = 3;

    pub const TYPE_EXCHANGE_PROTO_VERSION: u8 = 4;

    pub const TYPE_SHARE_MEMORY_BY_MEMFD: u8 = 5;

    /// The peer has mapped the shared memory.
    pub const TYPE_ACK_SHARE_MEMORY: u8 = 6;

    /// The peer is ready to take descriptors.
    pub const TYPE_ACK_READY_RECV_FD: u8 = 7;

    pub const TYPE_HOT_RESTART: u8 = 8;

    pub const TYPE_HOT_RESTART_ACK: u8 = 9;

    /// Carries a request or a response of the V4 negotiation.
    pub const TYPE_NEGOTIATION: u8 = 10;

    /// The number of the type.
    pub fn inner(&self) -> (r: u8)
        ensures
            r == self.0,
    {
        self.0
    }

    /// The name of the type.
    pub open spec fn words(self) -> Seq<char> {
        if self.0 == 0 {
            "ShareMemoryByFilePath"@
        } else if self.0 == 1 {
            "Polling"@
        } else if self.0 == 2 {
            "StreamClose"@
        } else if self.0 == 3 {
            "FallbackData"@
        } else if self.0 == 4 {
            "ExchangeProtoVersion"@
        } else if self.0 == 5 {
            "ShareMemoryByMemfd"@
        } else if self.0 == 6 {
            "AckShareMemory"@
        } else if self.0 == 7 {
            "AckReadyRecvFD"@
        } else if self.0 == 8 {
            "HotRestart"@
        } else if self.0 == 9 {
            "HotRestartAck"@
        } else if self.0 == 10 {
            "Negotiation"@
        } else {
            "UNSET"@ + text::decimal(self.0 as nat)
        }
    }

    /// The name of the type.
    pub fn name(&self) -> (r: String)
        ensures
            r@ == self.words(),
    {
        match self.0 {
            0 => "ShareMemoryByFilePath".to_owned(),
            1 => "Polling".to_owned(),
            2 => "StreamClose".to_owned(),
            3 => "FallbackData".to_owned(),
            4 => "ExchangeProtoVersion".to_owned(),
            5 => "ShareMemoryByMemfd".to_owned(),
            6 => "AckShareMemory".to_owned(),
            7 => "AckReadyRecvFD".to_owned(),
            8 => "HotRestart".to_owned(),
            9 => "HotRestartAck".to_owned(),
            10 => "Negotiation".to_owned(),
            i => {
                let mut unset: String = "UNSET".to_owned();
                text::push_decimal(&mut unset, i as u64);
                unset
            },
        }
    }
}

impl From<u8> for EventType {
    fn from(v: u8) -> (r: Self) {
        EventType(v)
    }
}

impl vstd::std_specs::convert::FromSpecImpl<u8> for EventType {
    open spec fn obeys_from_spec() -> bool {
        true
    }

    open spec fn from_spec(v: u8) -> Self {
        EventType(v)
    }
}

/// What a header is refused for.
pub open spec fn event_check(h: Header) -> Result<(), Error> {
    if h.magic() != MAGIC_NUMBER {
        Err(Error::InvalidVersion)
    } else if !(MIN_EVENT_TYPE <= h.msg_type().0 <= MAX_EVENT_TYPE) {
        Err(Error::InvalidMsgType)
    } else {
        Ok(())
    }
}

/// Checks the magic number and the type of a header.
pub fn check_event_valid(hdr: &Header) -> (r: Result<(), Error>)
    ensures
        r == event_check(*hdr),
{
    if hdr.magic() != MAGIC_NUMBER {
        return Err(Error::InvalidVersion);
    }
    let mt: u8 = hdr.msg_type().inner();
    if mt > MAX_EVENT_TYPE {
        return Err(Error::InvalidMsgType);
    }
    Ok(())
}

/// The header of an event with fallback data: event header, stream id, status.
#[derive(Clone, Copy, Debug, PartialEq, Eq)]
pub struct FallbackDataEvent(pub [u8; 16]);

/// The bytes of the header of an event with fallback data.
pub open spec fn fallback_frame(length: u32, version: u8, seq_id: u32, status: u32) -> Seq<u8> {
    header::frame(length, version, EventType::TYPE_FALLBACK_DATA) + wire::be32(seq_id)
        + wire::be32(status)
}

impl FallbackDataEvent {
    /// A header of zeros.
    pub fn new() -> (r: Self)
        ensures
            forall|i: int| 0 <= i < 16 ==> r.0@[i] == 0,
    {
        FallbackDataEvent([0u8; 16])
    }

    /// Fills the header in.
    pub fn encode(&mut self, length: u32, version: u8, seq_id: u32, status: u32)
        ensures
            final(self).0@ == fallback_frame(length, version, seq_id, status),
    {
        self.0[0] = (length / 0x100_0000) as u8;
        self.0[1] = (length / 0x1_0000 % 256) as u8;
        self.0[2] = (length / 256 % 256) as u8;
        self.0[3] = (length % 256) as u8;
        self.0[4] = (MAGIC_NUMBER / 256) as u8;
        self.0[5] = (MAGIC_NUMBER % 256) as u8;
        self.0[6] = version;
        self.0[7] = EventType::TYPE_FALLBACK_DATA;
        self.0[8] = (seq_id / 0x100_0000) as u8;
        self.0[9] = (seq_id / 0x1_0000 % 256) as u8;
        self.0[10] = (seq_id / 256 % 256) as u8;
        self.0[11] = (seq_id % 256) as u8;
        self.0[12] = (status / 0x100_0000) as u8;
        self.0[13] = (status / 0x1_0000 % 256) as u8;
        self.0[14] = (status / 256 % 256) as u8;
        self.0[15] = (status % 256) as u8;
        assert(self.0@ =~= fallback_frame(length, version, seq_id, status));
    }

    /// The bytes of the header.
    pub fn as_slice(&self) -> (r: &[u8])
        ensures
            r@ == self.0@,
    {
        self.0.as_slice()
    }
}

/// The polling event of a message version.
pub fn polling_event_with_version(version: u8) -> (r: Vec<u8>)
    requires
        version <= 3,
    ensures
        r@ == header::frame(HEADER_SIZE as u32, version, EventType::TYPE_POLLING),
{
    header::bare_event(version, EventType(EventType::TYPE_POLLING))
}

/// The event that tells the peer that a stream is closed.
pub open spec fn close_frame(version: u8, id: u32) -> Seq<u8> {
    header::frame(12, version, EventType::TYPE_STREAM_CLOSE) + wire::be32(id)
}

/// The event that tells the peer that a stream is closed.
pub fn close_event(version: u8, id: u32) -> (r: Vec<u8>)
    ensures
        r@ == close_frame(version, id),
{
    let mut h = Header::new();
    h.encode(12, version, EventType(EventType::TYPE_STREAM_CLOSE));
    let mut event: Vec<u8> = Vec::new();
    wire::push_all(&mut event, h.as_slice());
    wire::push_be32(&mut event, id);
    assert(event@ =~= close_frame(version, id));
    event
}

/// A header is sound exactly where it holds the magic number and one of the types that there are.
pub proof fn law_sound_headers_are_taken(h: Header, r: Result<(), Error>)
    requires
        call_ensures(check_event_valid, (&h,), r),
    ensures
        r is Ok <==> h.0@[4] == 0x77 && h.0@[5] == 0x58 && h.0@[7] <= 10,
        r is Err ==> r->Err_0 is InvalidVersion || r->Err_0 is InvalidMsgType,
        r == Err::<(), Error>(Error::InvalidVersion) <==> h.0@[4] != 0x77 || h.0@[5] != 0x58,
{
}

/// Every header that is filled in with a type that there is is sound, and shows what was filled in.
pub proof fn law_filled_in_headers_are_sound(
    h: &mut Header,
    length: u32,
    version: u8,
    msg_type: EventType,
    r: Result<(), Error>,
)
    requires
        call_ensures(Header::encode, (h, length, version, msg_type), ()),
        call_ensures(check_event_valid, (&*final(h),), r),
    ensures
        r is Ok <==> msg_type.0 <= 10,
        final(h).0@[0] * 0x100_0000 + final(h).0@[1] * 0x1_0000 + final(h).0@[2] * 0x100 + final(h).0@[3] == length,
        final(h).0@[6] == version,
        final(h).0@[7] == msg_type.0,
{
    Header::law_header_reads_back(*final(h), length, version, msg_type.0);
}

} // verus!
