//! Taking what the peer sent to the streams of a session.

use vstd::prelude::*;

use crate::buffer::linked;
use crate::buffer::linked::LinkedBuffer;
use crate::buffer::manager;
use crate::buffer::manager::{BufferManager, ManagerError};
use crate::buffer::slice::BufferSlice;
use crate::mem;
use crate::protocol::event;
use crate::protocol::negotiation::NegotiatedFeature;
use crate::queue::{Queue, QueueElement};
use crate::session::events;
use crate::session::events::{Effect, EventStep, EventStepView};
use crate::session::streams::{Route, Session, SessionView};
use crate::stats::Stats;
use crate::stream::flush;
use crate::stream::flush::FlushStep;
use crate::stream::life;
use crate::stream::pending;
use crate::stream::pending::BufferSliceWrapper;
use crate::stream::state;
use crate::stream::state::{Stream, STREAM_CLOSED, STREAM_HALF_CLOSED, STREAM_OPENED};
use crate::stream::wakeup::Wakeup;

verus! {

/// What the queue holds next.
#[derive(Clone, Copy, Debug, PartialEq, Eq, Structural)]
pub enum Delivery {
    /// Nothing.
    Empty,
    /// Something for a stream of the session; a new one is to be handed to whoever waits for it.
    ToStream { id: u32, is_new: bool, state: u32, offset: u32 },
    /// Data for a stream that is gone: the buffers are to be given back.
    Unclaimed { offset: u32 },
    /// Something else for a stream that is gone.
    Ignored,
}

impl SessionView {
    /// What is to be done with an element of the queue.
    pub open spec fn delivery(self, id: u32, state: u32, offset: u32) -> Delivery {
        match self.route(id, state) {
            Route::Known => Delivery::ToStream { id, is_new: false, state, offset },
            Route::New => Delivery::ToStream { id, is_new: true, state, offset },
            Route::Nowhere => if state == STREAM_OPENED {
                Delivery::Unclaimed { offset }
            } else {
                Delivery::Ignored
            },
        }
    }
}

impl Session {
    /// Takes the next element out of the queue and says what is to be done with it.
    pub fn next_delivery(&mut self, queue: &Queue, queue_mem: &mut [u8]) -> (r: Delivery)
        requires
            queue.wf(old(queue_mem)@),
        ensures
            queue.wf(final(queue_mem)@),
            final(queue_mem)@.len() == old(queue_mem)@.len(),
            queue.tail(final(queue_mem)@) == queue.tail(old(queue_mem)@),
            queue.working_flag(final(queue_mem)@) == queue.working_flag(old(queue_mem)@),
            mem::u32_at(final(queue_mem)@, queue.base()) == mem::u32_at(
                old(queue_mem)@,
                queue.base(),
            ),
            mem::same_range(old(queue_mem)@, final(queue_mem)@, 0, queue.base()),
            mem::same_range(
                old(queue_mem)@,
                final(queue_mem)@,
                queue.end(),
                old(queue_mem)@.len() as int,
            ),
            ({
                let es = queue.elements(old(queue_mem)@);
                if es.len() == 0 {
                    &&& r == Delivery::Empty
                    &&& final(queue_mem)@ == old(queue_mem)@
                    &&& final(self)@ == old(self)@
                } else {
                    let e = es[0];
                    let state = e.status & 0xff;
                    &&& r == old(self)@.delivery(e.seq_id, state, e.offset_in_shm_buf)
                    &&& queue.elements(final(queue_mem)@) == es.skip(1)
                    &&& queue.head(final(queue_mem)@) == queue.head(old(queue_mem)@) + 1
                    &&& final(self)@ == (SessionView {
                        streams: if old(self)@.route(e.seq_id, state) is New {
                            old(self)@.streams.insert(e.seq_id)
                        } else {
                            old(self)@.streams
                        },
                        ..old(self)@
                    })
                }
            }),
    {
        match queue.pop(queue_mem) {
            Ok(e) => {
                let id: u32 = e.seq_id;
                let state: u32 = e.status & 0xff;
                let offset: u32 = e.offset_in_shm_buf;
                match self.get_stream(id, state) {
                    Route::Known => Delivery::ToStream { id, is_new: false, state, offset },
                    Route::New => Delivery::ToStream { id, is_new: true, state, offset },
                    Route::Nowhere => if state == STREAM_OPENED {
                        Delivery::Unclaimed { offset }
                    } else {
                        Delivery::Ignored
                    },
                }
            },
            Err(_) => Delivery::Empty,
        }
    }
}

/// Gives the buffers of data back that no stream is there for, up to a link that leaves the region.
pub fn recycle_unclaimed(bm: &BufferManager, mem: &mut [u8], offset: u32) -> (r: Result<
    (),
    ManagerError,
>)
    requires
        bm.wf(old(mem)@),
        (BufferSliceWrapper { fallback_slice: None, offset }).wf(*bm, old(mem)@),
    ensures
        bm.wf(final(mem)@),
        final(mem)@.len() == old(mem)@.len(),
        if pending::inside(old(mem)@, offset) {
            let q = bm.chain_from(old(mem)@, offset as int);
            &&& r is Ok
            &&& bm.frees(final(mem)@) == bm.put_back(bm.frees(old(mem)@), q)
            &&& bm.counters(final(mem)@) == bm.counted_back(
                bm.counters(old(mem)@),
                q,
            )
            &&& bm.keeps(old(mem)@, final(mem)@, q.to_set())
        } else {
            &&& r == Err::<(), ManagerError>(
                ManagerError::UnexpectedOffset { offset, mem_len: old(mem)@.len() as usize },
            )
            &&& final(mem)@ == old(mem)@
        },
        bm.in_balance(old(mem)@) ==> bm.in_balance(final(mem)@),
{
    let ghost m0 = mem@;
    let ghost q = bm.chain_from(m0, offset as int);
    assert(mem@.len() == mem.len());
    proof {
        if pending::inside(m0, offset) {
            let o = offset as int;
            assert(bm.is_allocated(m0, q[0]));
            assert(BufferManager::readable(m0, q[0]));
            let li = choose|j: int| bm.in_use(m0, j, o);
            bm.lemma_in_use(m0, li, o);
        }
    }
    match bm.read_buffer_slice(mem, offset) {
        Ok(s) => {
            assert(bm.owns(m0, s));
            assert(bm.is_chain(m0, q) && q[0] == s.offset_in_shm);
            bm.recycle_buffers(mem, s);
            Ok(())
        },
        Err(e) => Err(e),
    }
}

/// Data that came over the connection, as a stream takes it in.
pub fn fallback_data(payload: Vec<u8>) -> (r: BufferSliceWrapper)
    requires
        payload@.len() <= u32::MAX,
    ensures
        r.fallback_slice is Some,
        forall|bm: BufferManager, m: Seq<u8>|
            {
                &&& #[trigger] r.wf(bm, m)
                &&& r.taken(bm, m) == Set::<int>::empty()
                &&& r.bytes(bm, m) == payload@
            },
{
    let len: usize = payload.len();
    let mut slice = BufferSlice::new_heap(payload);
    slice.write_index = len;
    let r = BufferSliceWrapper { fallback_slice: Some(slice), offset: 0 };
    assert forall|bm: BufferManager, m: Seq<u8>|
        {
            &&& #[trigger] r.wf(bm, m)
            &&& r.taken(bm, m) == Set::<int>::empty()
            &&& r.bytes(bm, m) == payload@
        } by {
        assert(slice.unread(m) =~= payload@);
    }
    r
}

/// Data in the shared memory, as a stream takes it in.
pub fn shared_data(offset: u32) -> (r: BufferSliceWrapper)
    ensures
        r == (BufferSliceWrapper { fallback_slice: None, offset }),
{
    BufferSliceWrapper { fallback_slice: None, offset }
}

/// What goes over the connection is what was written, where nothing of it was read back.
proof fn lemma_sent_bytes(b: LinkedBuffer, bm: BufferManager, m: Seq<u8>)
    requires
        b.wf(bm, m),
        b.sendable(m),
    ensures
        flush::fronts(flush::sent(b), m) == b.content(m),
        b.spec_len() == b.content(m).len(),
{
    reveal(LinkedBuffer::sendable);
    let ss = b.slices();
    let front = flush::sent(b);
    assert forall|i: int| 0 <= i < front.len() implies (#[trigger] front[i]).read_index == 0
        && front[i].wf(m) by {
        assert(front[i] == ss[i]);
    }
    flush::lemma_fronts(front, m);
    let rest = ss.skip(front.len() as int);
    assert(ss =~= front + rest);
    linked::lemma_content_add(front, rest, m);
    assert forall|i: int| 0 <= i < rest.len() implies (#[trigger] rest[i]).wf(m)
        && rest[i].read_index == rest[i].write_index by {
        assert(rest[i] == ss[front.len() + i]);
    }
    linked::lemma_content_empty(rest, m);
    assert(linked::content(front, m) + Seq::<u8>::empty() =~= linked::content(front, m));
}

proof fn lemma_arrives(
    a: Seq<u8>,
    version: u8,
    id: u32,
    payload: Seq<u8>,
    b: Seq<u8>,
    feature: NegotiatedFeature,
)
    requires
        payload.len() <= u32::MAX - 16,
    ensures
        reads_as(a, version, id, (payload.len() + 16) as u32, payload, b, feature, payload),
{
    let len = (payload.len() + 16) as u32;
    events::law_fallback_data_reads_back(a, version, id, STREAM_OPENED, payload, b, feature);
    assert(0u32 & 0xff == 0) by (bit_vector);
    assert(event::fallback_frame(len, version, id, STREAM_OPENED).len() == 16);
}

/// A message with `sent` behind its header is read as `payload` for an open stream.
pub open spec fn reads_as(
    a: Seq<u8>,
    version: u8,
    id: u32,
    len: u32,
    sent: Seq<u8>,
    b: Seq<u8>,
    feature: NegotiatedFeature,
    payload: Seq<u8>,
) -> bool {
    let msg = event::fallback_frame(len, version, id, STREAM_OPENED) + sent;
    &&& events::is_sound(a + msg + b, a.len() as int)
    &&& events::event_at(a + msg + b, a.len() as int, feature) == (EventStepView::FallbackData {
        next: (a.len() + msg.len()) as int,
        seq_id: id,
        status: STREAM_OPENED,
        payload,
    })
}

/// What one side flushed over the connection, the other receives: it reads the stream, that the
/// stream is open, and every byte that was written.
pub proof fn law_peer_reads_what_was_flushed(
    sender: Stream,
    bm: BufferManager,
    m: Seq<u8>,
    version: u8,
    a: Seq<u8>,
    b: Seq<u8>,
    feature: NegotiatedFeature,
)
    requires
        sender.send_buf.wf(bm, m),
        sender.send_buf.sendable(m),
        sender.send_buf.spec_len() <= u32::MAX - 16,
    ensures
        reads_as(
            a,
            version,
            sender.id,
            (sender.send_buf.spec_len() + 16) as u32,
            flush::fronts(flush::sent(sender.send_buf), m),
            b,
            feature,
            sender.send_buf.content(m),
        ),
{
    lemma_sent_bytes(sender.send_buf, bm, m);
    lemma_arrives(a, version, sender.id, sender.send_buf.content(m), b, feature);
}

/// Takes something to its stream: that the peer closed it, or data. Tells whether those who wait
/// for the stream have to know.
pub fn handle_stream_message(
    stream: &mut Stream,
    bm: &BufferManager,
    mem: &mut [u8],
    data: BufferSliceWrapper,
    state: u32,
) -> (r: bool)
    requires
        old(stream).wf(*bm, old(mem)@),
        state != STREAM_CLOSED ==> data.wf(*bm, old(mem)@) && data.taken(
            *bm,
            old(mem)@,
        ).disjoint(old(stream).owned(*bm, old(mem)@)),
    ensures
        final(stream).wf(*bm, final(mem)@),
        final(mem)@.len() == old(mem)@.len(),
        final(stream).id == old(stream).id,
        final(stream).session_id == old(stream).session_id,
        final(stream).in_fallback_state == old(stream).in_fallback_state,
        final(stream).send_buf == old(stream).send_buf,
        state == STREAM_CLOSED ==> {
            &&& r == (old(stream).state == STREAM_OPENED)
            &&& final(mem)@ == old(mem)@
            &&& *final(stream) == (Stream { state: final(stream).state, ..*old(stream) })
            &&& final(stream).state == if r {
                STREAM_HALF_CLOSED
            } else {
                old(stream).state
            }
        },
        state != STREAM_CLOSED ==> {
            &&& r == (old(stream).state != STREAM_CLOSED)
            &&& final(stream).state == old(stream).state
            &&& final(stream).send_buf.content(final(mem)@) == old(stream).send_buf.content(
                old(mem)@,
            )
            &&& old(stream).takes_in_but(
                *bm,
                old(mem)@,
                data,
                *final(stream),
                final(mem)@,
                if r {
                    Set::empty()
                } else {
                    life::let_go(*bm, old(mem)@, old(stream).pending_data@.push(data))
                },
            )
            &&& r ==> {
                &&& final(mem)@ == old(mem)@
                &&& final(stream).recv_buf == old(stream).recv_buf
                &&& final(stream).pending_data@ == old(stream).pending_data@.push(data)
                &&& final(stream).incoming(*bm, final(mem)@) == old(stream).incoming(
                    *bm,
                    old(mem)@,
                ) + data.bytes(*bm, old(mem)@)
            }
            &&& bm.in_balance(old(mem)@) ==> bm.in_balance(final(mem)@)
            &&& !r ==> {
                &&& final(stream).pending_data@.len() == 0
                &&& old(stream).recv_buf.emptied(final(stream).recv_buf)
                &&& flush::gave_up(*bm, old(stream).recv_buf, final(mem)@)
                &&& exists|m1: Seq<u8>|
                    {
                        &&& #[trigger] old(stream).recv_buf.went_back(*bm, m1, final(mem)@)
                        &&& bm.frees(m1) == life::frees_after(
                            *bm,
                            old(mem)@,
                            bm.frees(old(mem)@),
                            old(stream).pending_data@.push(data),
                        )
                        &&& bm.keeps(
                            old(mem)@,
                            m1,
                            state::held_pending(
                                *bm,
                                old(mem)@,
                                old(stream).pending_data@.push(data),
                            ),
                        )
                    }
            }
        },
{
    if state == STREAM_CLOSED {
        let ghost s0 = *stream;
        let r: bool = stream.half_close();
        assert(stream.owned(*bm, mem@) == s0.owned(*bm, mem@));
        return r;
    }
    stream.fill_data_to_read_buffer(bm, mem, data)
}

/// What the queue holds for a stream of the session is delivered to that stream, with its state and
/// its position, and the stream is not new. What is for a stream that the session does not have
/// opens it at a server that is told so. Data is unclaimed only where there is no stream for it and
/// none is opened; then its position is given, so that its buffers go back. The queue loses that
/// element and no other.
pub proof fn law_element_goes_to_its_stream(
    s: &mut Session,
    queue: &Queue,
    queue_mem: &mut [u8],
    r: Delivery,
)
    requires
        call_ensures(Session::next_delivery, (s, queue, queue_mem), r),
    ensures
        r is Empty <==> queue.elements(old(queue_mem)@).len() == 0,
        r is Empty ==> final(queue_mem)@ == old(queue_mem)@ && final(s)@ == old(s)@,
        queue.elements(old(queue_mem)@).len() > 0 ==> {
            let e = queue.elements(old(queue_mem)@)[0];
            let state = e.status & 0xff;
            let known = old(s)@.streams.contains(e.seq_id);
            let opens = !known && !old(s).is_client && state == STREAM_OPENED;
            &&& known ==> r == (Delivery::ToStream {
                id: e.seq_id,
                is_new: false,
                state,
                offset: e.offset_in_shm_buf,
            })
            &&& opens ==> r == (Delivery::ToStream {
                id: e.seq_id,
                is_new: true,
                state,
                offset: e.offset_in_shm_buf,
            })
            &&& r is Unclaimed ==> r->Unclaimed_offset == e.offset_in_shm_buf
            &&& r is Unclaimed <==> !known && !opens && state == STREAM_OPENED
            &&& r is Ignored <==> !known && state != STREAM_OPENED
            &&& final(s)@.streams.contains(e.seq_id) <==> known || opens
            &&& forall|o: u32|
                o != e.seq_id ==> (#[trigger] final(s)@.streams.contains(o)
                    <==> old(s)@.streams.contains(o))
            &&& final(s)@ == (SessionView { streams: final(s)@.streams, ..old(s)@ })
            &&& queue.elements(final(queue_mem)@) == queue.elements(old(queue_mem)@).skip(1)
        },
{
}

/// What is put into an empty queue for a stream that the other side has is delivered to it there:
/// the same stream, the same position and the same state.
pub proof fn law_put_element_is_delivered(
    queue: &Queue,
    a: &mut [u8],
    id: u32,
    offset: u32,
    state: u32,
    s: &mut Session,
    b: &mut [u8],
    r: Delivery,
)
    requires
        queue.elements(old(a)@).len() == 0,
        state <= 0xff,
        call_ensures(
            Queue::put,
            (
                queue,
                a,
                (QueueElement { seq_id: id, offset_in_shm_buf: offset, status: state }),
            ),
            Ok(()),
        ),
        old(b)@ == final(a)@,
        old(s)@.streams.contains(id),
        call_ensures(Session::next_delivery, (s, queue, b), r),
    ensures
        r == (Delivery::ToStream { id, is_new: false, state, offset }),
        queue.elements(final(b)@).len() == 0,
        final(s)@.streams.contains(id),
{
    law_element_goes_to_its_stream(s, queue, b, r);
    assert(state & 0xff == state) by (bit_vector)
        requires
            state <= 0xff,
    ;
}

/// Data for a stream that is not closed is taken in: its bytes stand behind those that came before
/// and whoever waits is told. That the peer closed a stream takes nothing of that away.
pub proof fn law_message_reaches_its_stream(
    stream: &mut Stream,
    bm: &BufferManager,
    mem: &mut [u8],
    data: BufferSliceWrapper,
    state: u32,
    r: bool,
)
    requires
        call_ensures(handle_stream_message, (stream, bm, mem, data, state), r),
    ensures
        state != STREAM_CLOSED && old(stream).state != STREAM_CLOSED ==> {
            &&& r
            &&& final(mem)@ == old(mem)@
            &&& final(stream).recv_buf == old(stream).recv_buf
            &&& final(stream).pending_data@ == old(stream).pending_data@.push(data)
            &&& final(stream).state == old(stream).state
            &&& final(stream).incoming(*bm, final(mem)@) == old(stream).incoming(*bm, old(mem)@)
                + data.bytes(*bm, old(mem)@)
        },
        state == STREAM_CLOSED ==> {
            &&& final(mem)@ == old(mem)@
            &&& final(stream).recv_buf == old(stream).recv_buf
            &&& final(stream).pending_data == old(stream).pending_data
            &&& r <==> old(stream).state == STREAM_OPENED
            &&& r ==> final(stream).state == STREAM_HALF_CLOSED
            &&& !r ==> final(stream).state == old(stream).state
        },
        state != STREAM_CLOSED && old(stream).state == STREAM_CLOSED ==> !r
            && final(stream).pending_data@.len() == 0,
        final(stream).send_buf == old(stream).send_buf,
        final(stream).id == old(stream).id,
        final(stream).in_fallback_state == old(stream).in_fallback_state,
{
}

/// What comes out of the queue is taken in at the position that the queue names, and what comes
/// over the connection byte for byte.
pub proof fn law_data_is_what_was_announced(
    offset: u32,
    a: BufferSliceWrapper,
    payload: Vec<u8>,
    b: BufferSliceWrapper,
    bm: BufferManager,
    m: Seq<u8>,
)
    requires
        call_ensures(shared_data, (offset,), a),
        call_ensures(fallback_data, (payload,), b),
    ensures
        a.offset == offset,
        a.fallback_slice is None,
        b.bytes(bm, m) == payload@,
        b.wf(bm, m),
        b.taken(bm, m) =~= Set::<int>::empty(),
{
    assert(b.wf(bm, m));
}

/// What a stream wrote and sends over the connection comes out at the other side, wherever the
/// message stands among others: for the same stream, byte for byte.
pub proof fn law_written_bytes_arrive(
    x: &mut Stream,
    bm: &BufferManager,
    m: &mut [u8],
    queue: &Queue,
    qm: &mut [u8],
    wakeup: &Wakeup,
    stats: &mut Stats,
    end_stream: bool,
    sent: FlushStep,
    before: Seq<u8>,
    after: Seq<u8>,
    s: &mut Session,
    buf: &[u8],
    at: usize,
    debug_mode: bool,
    r: (EventStep, Effect),
)
    requires
        call_ensures(Stream::flush, (x, bm, m, queue, qm, wakeup, stats, end_stream), sent),
        old(x).state == STREAM_OPENED,
        old(x).in_fallback_state || !old(x).send_buf.from_shm(),
        0 < old(x).send_buf.spec_len() <= u32::MAX - 16,
        old(x).send_buf.wf(*bm, old(m)@),
        old(x).send_buf.sendable(old(m)@),
        buf@ == before + sent->Fallback_0@ + after,
        at == before.len(),
        call_ensures(Session::handle_events, (s, buf, at, debug_mode), r),
    ensures
        sent is Fallback,
        final(x).in_fallback_state,
        r.0 is FallbackData,
        r.0->seq_id == old(x).id,
        r.0->status == 0,
        r.0->payload@ == old(x).send_buf.content(old(m)@),
        r.0->FallbackData_next == at + sent->Fallback_0@.len(),
        old(s)@.streams.contains(old(x).id) ==> r.1.stream == Route::Known,
        !old(s)@.streams.contains(old(x).id) && !old(s).is_client ==> r.1.stream == Route::New,
{
    let payload = old(x).send_buf.content(old(m)@);
    lemma_sent_bytes(old(x).send_buf, *bm, old(m)@);
    events::law_fallback_data_reads_back(
        before,
        wakeup.msg_version,
        old(x).id,
        STREAM_OPENED,
        payload,
        after,
        old(s).initialized.feature,
    );
    assert(0u32 & 0xff == 0) by (bit_vector);
    assert(r.0.view() is FallbackData);
    assert(event::fallback_frame(
        (payload.len() + 16) as u32,
        wakeup.msg_version,
        old(x).id,
        STREAM_OPENED,
    ).len() == 16);
}

/// Data that no stream is there for goes back whole, every buffer of it, and data that names no
/// buffer is told from it.
pub proof fn law_unclaimed_data_goes_back(
    bm: &BufferManager,
    m: &mut [u8],
    offset: u32,
    r: Result<(), ManagerError>,
    q: Seq<int>,
    i: int,
)
    requires
        bm.wf(old(m)@),
        call_ensures(recycle_unclaimed, (bm, m, offset), r),
    ensures
        r is Ok <==> offset + 20 < old(m)@.len(),
        r is Err ==> final(m)@ == old(m)@,
        r is Ok && bm.is_chain(old(m)@, q) && q[0] == offset && 0 <= i < q.len()
            ==> !bm.is_allocated(final(m)@, q[i]),
{
    if r is Ok && bm.is_chain(old(m)@, q) && q[0] == offset && 0 <= i < q.len() {
        manager::law_chain_goes_back_whole(*bm, old(m)@, q, final(m)@, i);
    }
}

} // verus!
