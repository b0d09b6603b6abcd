//! What this crate relies on of the outside crates it calls.

use std::time::Duration;

use bytes::{Bytes, BytesMut};
use crossbeam_queue::ArrayQueue;
use tokio::io::ReadBuf;
use vstd::prelude::*;

verus! {

/// The type [`bytes::Bytes`]: an immutable run of bytes.
#[verifier::external_type_specification]
#[verifier::external_body]
pub struct ExBytes(bytes::Bytes);

/// The type [`bytes::BytesMut`]: a run of bytes that grows.
#[verifier::external_type_specification]
#[verifier::external_body]
pub struct ExBytesMut(bytes::BytesMut);

/// The type [`tokio::io::ReadBuf`]: a destination of fixed capacity that is filled from the front.
#[verifier::external_type_specification]
#[verifier::external_body]
pub struct ExReadBuf<'a>(tokio::io::ReadBuf<'a>);

/// The bytes that a [`bytes::Bytes`] holds.
pub uninterp spec fn bytes_content(b: Bytes) -> Seq<u8>;

/// The bytes that a [`bytes::BytesMut`] holds.
pub uninterp spec fn bytes_mut_content(b: BytesMut) -> Seq<u8>;

/// How many bytes a [`bytes::BytesMut`] was made for.
pub uninterp spec fn bytes_mut_capacity(b: BytesMut) -> nat;

/// The bytes that a [`tokio::io::ReadBuf`] was filled with.
pub uninterp spec fn read_buf_filled(b: ReadBuf) -> Seq<u8>;

/// How many bytes a [`tokio::io::ReadBuf`] can be filled with in all.
pub uninterp spec fn read_buf_capacity(b: ReadBuf) -> nat;

/// [`bytes::Bytes::new`] gives a value that holds nothing.
#[verifier::external_body]
pub(crate) fn bytes_new() -> (r: Bytes)
    ensures
        bytes_content(r) == Seq::<u8>::empty(),
{
    Bytes::new()
}

/// [`bytes::Bytes::copy_from_slice`] gives a value that holds the bytes of the slice.
#[verifier::external_body]
pub(crate) fn bytes_copy_from_slice(data: &[u8]) -> (r: Bytes)
    ensures
        bytes_content(r) == data@,
{
    Bytes::copy_from_slice(data)
}

/// The slice that [`bytes::Bytes`] gives as an `AsRef<[u8]>` holds its bytes.
#[verifier::external_body]
pub(crate) fn bytes_as_slice(b: &Bytes) -> (r: &[u8])
    ensures
        r@ == bytes_content(*b),
{
    b.as_ref()
}

/// [`bytes::Bytes::len`] is the number of bytes held.
#[verifier::external_body]
pub(crate) fn bytes_len(b: &Bytes) -> (r: usize)
    ensures
        r == bytes_content(*b).len(),
{
    b.len()
}

/// `advance` of [`bytes::Buf`], on a [`bytes::Bytes`], drops the first `cnt` bytes. It panics
/// where there are fewer.
#[verifier::external_body]
pub(crate) fn bytes_advance(b: &mut Bytes, cnt: usize)
    requires
        cnt <= bytes_content(*old(b)).len(),
    ensures
        bytes_content(*final(b)) == bytes_content(*old(b)).skip(cnt as int),
{
    bytes::Buf::advance(b, cnt)
}

/// [`bytes::BytesMut::with_capacity`] gives a value that holds nothing and can hold that many bytes
/// without another allocation. It panics where the capacity is more than an allocation can have.
#[verifier::external_body]
pub(crate) fn bytes_mut_with_capacity(capacity: usize) -> (r: BytesMut)
    requires
        capacity <= isize::MAX,
    ensures
        bytes_mut_content(r) == Seq::<u8>::empty(),
        bytes_mut_capacity(r) == capacity,
{
    BytesMut::with_capacity(capacity)
}

/// [`bytes::BytesMut::extend_from_slice`] appends the bytes of the slice. It could panic only where
/// it has to allocate, which it does not for what the value was made for.
#[verifier::external_body]
pub(crate) fn bytes_mut_extend_from_slice(b: &mut BytesMut, extend: &[u8])
    requires
        bytes_mut_content(*old(b)).len() + extend@.len() <= bytes_mut_capacity(*old(b)),
    ensures
        bytes_mut_capacity(*final(b)) == bytes_mut_capacity(*old(b)),
        bytes_mut_content(*final(b)) == bytes_mut_content(*old(b)) + extend@,
{
    b.extend_from_slice(extend)
}

/// [`bytes::BytesMut::freeze`] turns the value into one that holds the same bytes.
#[verifier::external_body]
pub(crate) fn bytes_mut_freeze(b: BytesMut) -> (r: Bytes)
    ensures
        bytes_content(r) == bytes_mut_content(b),
{
    b.freeze()
}

/// [`tokio::io::ReadBuf::remaining`] is the capacity without what was filled.
#[verifier::external_body]
pub(crate) fn read_buf_remaining(b: &ReadBuf<'_>) -> (r: usize)
    ensures
        r == read_buf_capacity(*b) - read_buf_filled(*b).len(),
{
    b.remaining()
}

/// [`tokio::io::ReadBuf::put_slice`] appends the bytes of the slice to what was filled. It panics
/// where they do not fit.
#[verifier::external_body]
pub(crate) fn read_buf_put_slice(b: &mut ReadBuf<'_>, data: &[u8])
    requires
        read_buf_filled(*old(b)).len() + data@.len() <= read_buf_capacity(*old(b)),
    ensures
        read_buf_filled(*final(b)) == read_buf_filled(*old(b)) + data@,
        read_buf_capacity(*final(b)) == read_buf_capacity(*old(b)),
{
    b.put_slice(data)
}

/// [`ArrayQueue`], a queue that holds at most as many items as it was made for.
#[verifier::external_type_specification]
#[verifier::external_body]
#[verifier::reject_recursive_types(T)]
pub struct ExArrayQueue<T>(ArrayQueue<T>);

/// The items of an [`ArrayQueue`], in the order in which they come out.
pub uninterp spec fn array_queue_content(q: ArrayQueue<u32>) -> Seq<u32>;

/// How many items an [`ArrayQueue`] was made for.
pub uninterp spec fn array_queue_capacity(q: ArrayQueue<u32>) -> nat;

/// [`ArrayQueue::new`] makes an empty queue for that many items. It panics where that is none, or
/// more than can be allocated: each item takes a slot of at most sixteen bytes.
#[verifier::external_body]
pub(crate) fn array_queue_new(cap: usize) -> (r: ArrayQueue<u32>)
    requires
        0 < cap,
        cap * 16 <= isize::MAX,
    ensures
        array_queue_content(r) == Seq::<u32>::empty(),
        array_queue_capacity(r) == cap,
{
    ArrayQueue::new(cap)
}

/// [`ArrayQueue::push`] puts an item at the end, or hands it back where the queue is full.
#[verifier::external_body]
pub(crate) fn array_queue_push(q: &mut ArrayQueue<u32>, value: u32) -> (r: Result<(), u32>)
    ensures
        array_queue_capacity(*final(q)) == array_queue_capacity(*old(q)),
        array_queue_content(*old(q)).len() < array_queue_capacity(*old(q)) ==> r is Ok
            && array_queue_content(*final(q)) == array_queue_content(*old(q)).push(value),
        array_queue_content(*old(q)).len() >= array_queue_capacity(*old(q)) ==> r is Err && r->Err_0
            == value && array_queue_content(*final(q)) == array_queue_content(*old(q)),
{
    q.push(value)
}

/// [`ArrayQueue::pop`] takes the first item, where there is one.
#[verifier::external_body]
pub(crate) fn array_queue_pop(q: &mut ArrayQueue<u32>) -> (r: Option<u32>)
    ensures
        array_queue_capacity(*final(q)) == array_queue_capacity(*old(q)),
        match r {
            Some(v) => array_queue_content(*old(q)).len() > 0 && v == array_queue_content(
                *old(q),
            )[0] && array_queue_content(*final(q)) == array_queue_content(*old(q)).skip(1),
            None => array_queue_content(*old(q)).len() == 0 && array_queue_content(*final(q))
                == array_queue_content(*old(q)),
        },
{
    q.pop()
}

/// How long a [`Duration`] is, in nanoseconds.
pub uninterp spec fn duration_nanos(d: Duration) -> nat;

/// [`Duration::from_secs`] is that many seconds long.
pub assume_specification[ Duration::from_secs ](secs: u64) -> (r: Duration)
    ensures
        duration_nanos(r) == secs * 1_000_000_000,
;

/// [`Duration::from_millis`] is that many milliseconds long.
pub assume_specification[ Duration::from_millis ](millis: u64) -> (r: Duration)
    ensures
        duration_nanos(r) == millis * 1_000_000,
;

/// [`Duration::from_micros`] is that many microseconds long.
pub assume_specification[ Duration::from_micros ](micros: u64) -> (r: Duration)
    ensures
        duration_nanos(r) == micros * 1_000,
;

/// [`Duration::is_zero`] tells whether the duration is no time at all.
pub assume_specification[ Duration::is_zero ](d: &Duration) -> (r: bool)
    ensures
        r == (duration_nanos(*d) == 0),
;

/// [`Duration::as_micros`] is the number of whole microseconds.
pub assume_specification[ Duration::as_micros ](d: &Duration) -> (r: u128)
    ensures
        r == duration_nanos(*d) / 1_000,
;

} // verus!
