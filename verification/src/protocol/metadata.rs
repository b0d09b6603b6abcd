//! The message that names the shared memory files.

use vstd::prelude::*;
use vstd::utf8;

use crate::consts::HEADER_SIZE;
use crate::protocol::event::EventType;
use crate::protocol::header;
use crate::protocol::header::Header;
use crate::protocol::wire;

verus! {

/// The body of the message: the path of the queue and the path of the buffer, each behind its
/// length in two bytes.
pub open spec fn metadata_body(buffer_path: Seq<u8>, queue_path: Seq<u8>) -> Seq<u8> {
    wire::be16((queue_path.len() % 0x1_0000) as u16) + queue_path + wire::be16(
        (buffer_path.len() % 0x1_0000) as u16,
    ) + buffer_path
}

/// The message.
pub open spec fn metadata(
    event_type: u8,
    buffer_path: Seq<u8>,
    queue_path: Seq<u8>,
    version: u8,
) -> Seq<u8> {
    header::frame(
        ((HEADER_SIZE + 4 + buffer_path.len() + queue_path.len()) % 0x1_0000_0000) as u32,
        version,
        event_type,
    ) + metadata_body(buffer_path, queue_path)
}

/// The length of the queue's path in a body.
pub open spec fn queue_path_len(body: Seq<u8>) -> int {
    wire::be16_at(body, 0) as int
}

/// The length of the buffer's path in a body.
pub open spec fn buffer_path_len(body: Seq<u8>) -> int {
    wire::be16_at(body, 2 + queue_path_len(body)) as int
}

/// The body is long enough for both paths.
pub open spec fn has_metadata(body: Seq<u8>) -> bool {
    &&& body.len() >= 2
    &&& body.len() >= 4 + queue_path_len(body)
    &&& body.len() >= 4 + queue_path_len(body) + buffer_path_len(body)
}

/// The path of the queue in a body.
pub open spec fn queue_path_of(body: Seq<u8>) -> Seq<u8> {
    body.subrange(2, 2 + queue_path_len(body))
}

/// The path of the buffer in a body.
pub open spec fn buffer_path_of(body: Seq<u8>) -> Seq<u8> {
    let o = 4 + queue_path_len(body);
    body.subrange(o, o + buffer_path_len(body))
}

/// Builds the message that names the shared memory files.
pub fn generate_shm_metadata(
    event_type: EventType,
    buffer_path: &str,
    queue_path: &str,
    version: u8,
) -> (r: Vec<u8>)
    requires
        HEADER_SIZE + 4 + utf8::encode_utf8(buffer_path@).len() + utf8::encode_utf8(queue_path@).len()
            <= usize::MAX,
    ensures
        r@ == metadata(
            event_type.0,
            utf8::encode_utf8(buffer_path@),
            utf8::encode_utf8(queue_path@),
            version,
        ),
{
    let queue: &[u8] = queue_path.as_bytes();
    let buffer: &[u8] = buffer_path.as_bytes();
    let total: usize = 12 + buffer.len() + queue.len();
    let mut h = Header::new();
    h.encode((total as u64 % 0x1_0000_0000) as u32, version, event_type);
    let mut data: Vec<u8> = Vec::new();
    wire::push_all(&mut data, h.as_slice());
    wire::push_be16(&mut data, (queue.len() as u64 % 0x1_0000) as u16);
    wire::push_all(&mut data, queue);
    wire::push_be16(&mut data, (buffer.len() as u64 % 0x1_0000) as u16);
    wire::push_all(&mut data, buffer);
    assert(data@ =~= metadata(event_type.0, buffer@, queue@, version));
    data
}

/// Whether a body is long enough for both paths.
pub fn has_shm_metadata(body: &[u8]) -> (r: bool)
    ensures
        r == has_metadata(body@),
{
    if body.len() < 2 {
        return false;
    }
    let q: usize = wire::get_be16(body, 0) as usize;
    if body.len() < q + 4 {
        return false;
    }
    let b: usize = wire::get_be16(body, 2 + q) as usize;
    body.len() - q - 4 >= b
}

/// The path of the buffer and the path of the queue in a body.
pub fn extract_shm_metadata(body: &[u8]) -> (r: (Vec<u8>, Vec<u8>))
    requires
        has_metadata(body@),
    ensures
        r.0@ == buffer_path_of(body@),
        r.1@ == queue_path_of(body@),
{
    let q: usize = wire::get_be16(body, 0) as usize;
    let b: usize = wire::get_be16(body, 2 + q) as usize;
    let queue_path: Vec<u8> = part(body, 2, q);
    let buffer_path: Vec<u8> = part(body, 4 + q, b);
    (buffer_path, queue_path)
}

/// A copy of `len` bytes from `at` on.
pub fn part(s: &[u8], at: usize, len: usize) -> (r: Vec<u8>)
    requires
        at + len <= s@.len(),
    ensures
        r@ == s@.subrange(at as int, at + len),
{
    let mut v: Vec<u8> = Vec::new();
    let mut i: usize = 0;
    while i < len
        invariant
            i <= len,
            at + len <= s@.len(),
            v@ == s@.subrange(at as int, at + i),
        decreases len - i,
    {
        assert(s@.len() == s.len());
        v.push(s[at + i]);
        i = i + 1;
        assert(v@ =~= s@.subrange(at as int, at + i));
    }
    v
}

proof fn lemma_body_reads_back(buffer_path: Seq<u8>, queue_path: Seq<u8>)
    requires
        buffer_path.len() < 0x1_0000,
        queue_path.len() < 0x1_0000,
    ensures
        has_metadata(metadata_body(buffer_path, queue_path)),
        buffer_path_of(metadata_body(buffer_path, queue_path)) == buffer_path,
        queue_path_of(metadata_body(buffer_path, queue_path)) == queue_path,
{
    let body = metadata_body(buffer_path, queue_path);
    let q = queue_path.len() as u16;
    let b = buffer_path.len() as u16;
    assert(body == wire::be16(q) + queue_path + wire::be16(b) + buffer_path);
    assert(queue_path_len(body) == q) by {
        let rest = queue_path + wire::be16(b) + buffer_path;
        wire::law_numbers_read_back(Seq::empty(), q, 0, rest);
        assert(body =~= Seq::<u8>::empty() + wire::be16(q) + rest);
    }
    assert(buffer_path_len(body) == b) by {
        wire::law_numbers_read_back(wire::be16(q) + queue_path, b, 0, buffer_path);
    }
    assert(buffer_path_of(body) =~= buffer_path);
    assert(queue_path_of(body) =~= queue_path);
}

/// The peer finds the paths that were named, unless one is too long for its length field.
#[verifier::rlimit(20)]
pub proof fn law_metadata_reads_back(
    event_type: u8,
    buffer_path: Seq<u8>,
    queue_path: Seq<u8>,
    version: u8,
)
    requires
        buffer_path.len() < 0x1_0000,
        queue_path.len() < 0x1_0000,
    ensures
        ({
            let m = metadata(event_type, buffer_path, queue_path, version);
            let body = m.skip(HEADER_SIZE as int);
            &&& m.take(HEADER_SIZE as int) == header::frame(m.len() as u32, version, event_type)
            &&& body == metadata_body(buffer_path, queue_path)
            &&& has_metadata(body)
            &&& buffer_path_of(body) == buffer_path
            &&& queue_path_of(body) == queue_path
        }),
{
    let m = metadata(event_type, buffer_path, queue_path, version);
    lemma_body_reads_back(buffer_path, queue_path);
    assert(m.skip(HEADER_SIZE as int) =~= metadata_body(buffer_path, queue_path));
    assert(m.take(HEADER_SIZE as int) =~= header::frame(m.len() as u32, version, event_type));
}

/// The files that a message names are the files that the peer finds in it, each for what it is.
pub proof fn law_named_files_are_found(
    event_type: EventType,
    buffer_path: &str,
    queue_path: &str,
    version: u8,
    r: Vec<u8>,
    body: &[u8],
    sound: bool,
    paths: (Vec<u8>, Vec<u8>),
)
    requires
        call_ensures(generate_shm_metadata, (event_type, buffer_path, queue_path, version), r),
        utf8::encode_utf8(buffer_path@).len() < 0x1_0000,
        utf8::encode_utf8(queue_path@).len() < 0x1_0000,
        body@ == r@.skip(8),
        call_ensures(has_shm_metadata, (body,), sound),
        call_ensures(extract_shm_metadata, (body,), paths),
    ensures
        sound,
        paths.0@ == utf8::encode_utf8(buffer_path@),
        paths.1@ == utf8::encode_utf8(queue_path@),
{
    let b = utf8::encode_utf8(buffer_path@);
    let q = utf8::encode_utf8(queue_path@);
    assert(has_metadata(body@) && buffer_path_of(body@) == b && queue_path_of(body@) == q) by {
        law_metadata_reads_back(event_type.0, b, q, version);
    }
}

/// The header of a message that names files says how long the message is, and what was asked for.
pub proof fn law_message_says_how_long_it_is(
    event_type: EventType,
    buffer_path: &str,
    queue_path: &str,
    version: u8,
    r: Vec<u8>,
    h: Header,
)
    requires
        call_ensures(generate_shm_metadata, (event_type, buffer_path, queue_path, version), r),
        utf8::encode_utf8(buffer_path@).len() < 0x1_0000,
        utf8::encode_utf8(queue_path@).len() < 0x1_0000,
        h.0@ == r@.take(8),
    ensures
        h.length() == 12 + utf8::encode_utf8(buffer_path@).len() + utf8::encode_utf8(
            queue_path@,
        ).len(),
        h.version() == version,
        h.msg_type() == event_type,
        r@.subrange(10, 10int + utf8::encode_utf8(queue_path@).len()) =~= utf8::encode_utf8(
            queue_path@,
        ),
        r@.skip(12int + utf8::encode_utf8(queue_path@).len()) =~= utf8::encode_utf8(buffer_path@),
{
    let b = utf8::encode_utf8(buffer_path@);
    let q = utf8::encode_utf8(queue_path@);
    let n = (12 + b.len() + q.len()) as u32;
    assert(h.0@ =~= header::frame(n, version, event_type.0));
    Header::law_header_reads_back(h, n, version, event_type.0);
}

/// A body is refused where it is too short for what it says, wherever it is cut off.
pub proof fn law_cut_off_bodies_are_refused(body: &[u8], sound: bool)
    requires
        call_ensures(has_shm_metadata, (body,), sound),
    ensures
        sound ==> body@.len() >= 4,
        sound <==> body@.len() >= 2 && ({
            let q = body@[0] * 0x100 + body@[1];
            body@.len() >= 4 + q && body@.len() >= 4 + q + body@[2 + q] * 0x100 + body@[3 + q]
        }),
{
}

} // verus!
