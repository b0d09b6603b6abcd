//! The header of an event.

use vstd::prelude::*;
use vstd::string::StringExecFns;

use crate::consts::{HEADER_SIZE, MAGIC_NUMBER};
use crate::protocol::event::EventType;
use crate::protocol::wire;
use crate::text;

verus! {

/// The header of an event: the length of the whole event, a magic number, the version of the
/// message and its type.
#[derive(Clone, Copy, Debug, PartialEq, Eq)]
pub struct Header(pub [u8; 8]);

/// The bytes of a header.
pub open spec fn frame(length: u32, version: u8, msg_type: u8) -> Seq<u8> {
    wire::be32(length) + wire::be16(MAGIC_NUMBER) + seq![version, msg_type]
}

impl Header {
    /// A header of zeros.
    pub fn new() -> (r: Self)
        ensures
            forall|i: int| 0 <= i < HEADER_SIZE ==> r.0@[i] == 0,
    {
        Header([0u8; 8])
    }

    /// The header that stands at `at`.
    pub fn read(buf: &[u8], at: usize) -> (r: Self)
        requires
            at + HEADER_SIZE <= buf@.len(),
        ensures
            r.0@ == buf@.subrange(at as int, at + HEADER_SIZE),
    {
        let h = Header(
            [
                buf[at],
                buf[at + 1],
                buf[at + 2],
                buf[at + 3],
                buf[at + 4],
                buf[at + 5],
                buf[at + 6],
                buf[at + 7],
            ],
        );
        assert(h.0@ =~= buf@.subrange(at as int, at + HEADER_SIZE));
        h
    }

    pub open spec fn spec_length(&self) -> u32 {
        wire::be32_at(self.0@, 0)
    }

    pub open spec fn spec_magic(&self) -> u16 {
        wire::be16_at(self.0@, 4)
    }

    pub open spec fn spec_version(&self) -> u8 {
        self.0@[6]
    }

    pub open spec fn spec_msg_type(&self) -> EventType {
        EventType(self.0@[7])
    }

    /// The length of the event, header included.
    #[verifier::when_used_as_spec(spec_length)]
    pub fn length(&self) -> (r: u32)
        ensures
            r == self.length(),
    {
        wire::get_be32(self.0.as_slice(), 0)
    }

    #[verifier::when_used_as_spec(spec_magic)]
    pub fn magic(&self) -> (r: u16)
        ensures
            r == self.magic(),
    {
        wire::get_be16(self.0.as_slice(), 4)
    }

    #[verifier::when_used_as_spec(spec_version)]
    pub fn version(&self) -> (r: u8)
        ensures
            r == self.version(),
    {
        self.0[6]
    }

    #[verifier::when_used_as_spec(spec_msg_type)]
    pub fn msg_type(&self) -> (r: EventType)
        ensures
            r == self.msg_type(),
    {
        EventType(self.0[7])
    }

    /// Fills the header in.
    pub fn encode(&mut self, length: u32, version: u8, msg_type: EventType)
        ensures
            final(self).0@ == frame(length, version, msg_type.0),
    {
        self.0[0] = (length / 0x100_0000) as u8;
        self.0[1] = (length / 0x1_0000 % 256) as u8;
        self.0[2] = (length / 256 % 256) as u8;
        self.0[3] = (length % 256) as u8;
        self.0[4] = (MAGIC_NUMBER / 256) as u8;
        self.0[5] = (MAGIC_NUMBER % 256) as u8;
        self.0[6] = version;
        self.0[7] = msg_type.0;
        assert(self.0@ =~= frame(length, version, msg_type.0));
    }

    /// The bytes of the header.
    pub fn as_slice(&self) -> (r: &[u8])
        ensures
            r@ == self.0@,
    {
        self.0.as_slice()
    }

    /// How many bytes follow the header.
    pub fn body_len(&self) -> (r: Option<u32>)
        ensures
            r == (if self.length() >= HEADER_SIZE {
                Some((self.length() - HEADER_SIZE) as u32)
            } else {
                None
            }),
    {
        let n: u32 = self.length();
        if n >= 8 {
            Some(n - 8)
        } else {
            None
        }
    }

    /// The header in words.
    pub open spec fn words(self) -> Seq<char> {
        "Header { length: "@ + text::decimal(self.length() as nat) + ", magic: "@ + text::decimal(
            self.magic() as nat,
        ) + ", version: "@ + text::decimal(self.version() as nat) + ", msg_type: "@
            + self.msg_type().words() + " }"@
    }

    /// The header in words.
    pub fn describe(&self) -> (r: String)
        ensures
            r@ == self.words(),
    {
        let mut s: String = "Header { length: ".to_owned();
        text::push_decimal(&mut s, self.length() as u64);
        s.append(", magic: ");
        text::push_decimal(&mut s, self.magic() as u64);
        s.append(", version: ");
        text::push_decimal(&mut s, self.version() as u64);
        s.append(", msg_type: ");
        let name: String = self.msg_type().name();
        s.append(name.as_str());
        s.append(" }");
        s
    }

    /// A header says what was encoded into it.
    pub proof fn law_header_reads_back(h: Self, length: u32, version: u8, msg_type: u8)
        requires
            h.0@ == frame(length, version, msg_type),
        ensures
            h.length() == length,
            h.magic() == MAGIC_NUMBER,
            h.version() == version,
            h.msg_type() == EventType(msg_type),
    {
        wire::law_numbers_read_back(Seq::empty(), MAGIC_NUMBER, length, Seq::empty());
        let s = frame(length, version, msg_type);
        assert(s[0] == wire::be32(length)[0] && s[1] == wire::be32(length)[1]);
        assert(s[2] == wire::be32(length)[2] && s[3] == wire::be32(length)[3]);
        assert(s[4] == wire::be16(MAGIC_NUMBER)[0] && s[5] == wire::be16(MAGIC_NUMBER)[1]);
    }
}

/// An event that is a header alone.
pub fn bare_event(version: u8, msg_type: EventType) -> (r: Vec<u8>)
    ensures
        r@ == frame(HEADER_SIZE as u32, version, msg_type.0),
{
    let mut h = Header::new();
    h.encode(8, version, msg_type);
    let mut v: Vec<u8> = Vec::new();
    wire::push_all(&mut v, h.as_slice());
    assert(v@ =~= h.0@);
    v
}

} // verus!
