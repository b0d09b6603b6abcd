//! Reading from a stream.

use vstd::prelude::*;

use crate::buffer::buf::Buf;
use crate::buffer::linked;
use crate::buffer::linked::{LinkedBuffer, PinLease};
use crate::buffer::manager::BufferManager;
use crate::buffer::slice::BufferSlice;
use crate::buffer::taking;
use crate::error::Error;
use crate::outside;
use crate::stats;
use crate::stats::Stats;
use crate::stream::pending;
use crate::stream::state;
use crate::stream::state::{Stream, STREAM_CLOSED, STREAM_HALF_CLOSED, STREAM_OPENED};

verus! {

impl Stream {
    /// Nothing but the receive buffer differs.
    pub open spec fn same_but_recv(self, other: Self) -> bool {
        &&& self.id == other.id
        &&& self.session_id == other.session_id
        &&& self.send_buf == other.send_buf
        &&& self.pending_data == other.pending_data
        &&& self.state == other.state
        &&& self.in_fallback_state == other.in_fallback_state
    }

    /// What holds of the stream after its receive buffer changed.
    pub open spec fn recv_changed(
        self,
        bm: BufferManager,
        a: Seq<u8>,
        next: Self,
        b: Seq<u8>,
    ) -> bool {
        &&& next.wf(bm, b)
        &&& self.evolves(bm, a, next, b)
        &&& next.same_but_recv(self)
        &&& next.send_buf.content(b) == self.send_buf.content(a)
        &&& next.incoming(bm, b) == self.incoming(bm, a)
        &&& self.send_buf.sendable(a) ==> next.send_buf.sendable(b)
        &&& bm.keeps(a, b, state::held(self.recv_buf))
    }

    /// Whatever the receive buffer becomes, the rest of the stream takes no notice.
    proof fn lemma_any_recv(self, bm: BufferManager, a: Seq<u8>)
        requires
            self.wf(bm, a),
        ensures
            forall|x: LinkedBuffer, b: Seq<u8>| #[trigger]
                self.recv_buf.evolves(bm, a, x, b) && x.wf(bm, b) ==> self.recv_changed(
                    bm,
                    a,
                    Stream { recv_buf: x, ..self },
                    b,
                ),
    {
        assert forall|x: LinkedBuffer, b: Seq<u8>| #[trigger]
            self.recv_buf.evolves(bm, a, x, b) && x.wf(bm, b) implies self.recv_changed(
            bm,
            a,
            Stream { recv_buf: x, ..self },
            b,
        ) by {
            self.lemma_recv_changed(bm, a, Stream { recv_buf: x, ..self }, b);
            bm.lemma_keeps_wider(
                a,
                b,
                linked::cells(self.recv_buf.slices()),
                state::held(self.recv_buf),
            );
        }
    }

    /// Whether a read of `size` bytes can go on at once.
    pub fn before_read(&self, size: usize) -> (r: Result<bool, Error>)
        ensures
            r == if self.state == STREAM_CLOSED {
                Err::<bool, Error>(Error::StreamClosed)
            } else {
                Ok(self.recv_buf.spec_len() >= size)
            },
    {
        if self.state == STREAM_CLOSED {
            return Err(Error::StreamClosed);
        }
        Ok(self.recv_buf.len() >= size)
    }

    /// Takes up what came in, and tells whether `min_size` bytes can now be read. Where they
    /// cannot, more data or the end of the stream has to be waited for.
    pub fn read_more(
        &mut self,
        bm: &BufferManager,
        mem: &mut [u8],
        stats: &mut Stats,
        min_size: usize,
    ) -> (r: Result<bool, Error>)
        requires
            old(self).wf(*bm, old(mem)@),
            old(self).recv_buf.spec_len() + old(self).incoming(*bm, old(mem)@).len() <= usize::MAX,
        ensures
            r == final(self).read_ready(min_size as int),
            final(self).wf(*bm, final(mem)@),
            final(mem)@.len() == old(mem)@.len(),
            old(self).evolves(*bm, old(mem)@, *final(self), final(mem)@),
            final(self).recv_buf.content(final(mem)@) == old(self).recv_buf.content(old(mem)@)
                + old(self).incoming(*bm, old(mem)@),
            old(self).took_up(*bm, old(mem)@, *final(self), final(mem)@),
            bm.in_balance(old(mem)@) ==> bm.in_balance(final(mem)@),
            final(self).pending_data@.len() == 0,
            final(self).in_fallback_state == (old(self).in_fallback_state || pending::has_fallback(
                old(self).pending_data@,
            )),
            final(self).id == old(self).id,
            final(self).session_id == old(self).session_id,
            final(self).state == old(self).state,
            final(self).send_buf == old(self).send_buf,
            final(self).send_buf.content(final(mem)@) == old(self).send_buf.content(old(mem)@),
            old(self).send_buf.sendable(old(mem)@) ==> final(self).send_buf.sendable(final(mem)@),
            *final(stats) == (Stats {
                in_flow_bytes: stats::wrap_add(
                    old(stats).in_flow_bytes,
                    old(self).incoming(*bm, old(mem)@).len() as u64,
                ),
                ..*old(stats)
            }),
    {
        self.move_pending_data(bm, mem, stats);
        self.check_read_ready(min_size)
    }

    /// Hands out, in place, what the first slice with something to read holds.
    pub fn read_chunk<'a>(&'a mut self, bm: &BufferManager, mem: &'a mut [u8]) -> (r: Result<
        Buf<'a>,
        Error,
    >)
        requires
            old(self).wf(*bm, old(mem)@),
            old(self).recv_buf.content(old(mem)@).len() > 0 ==> old(self).recv_buf.can_pin(),
        ensures
            old(self).recv_changed(*bm, old(mem)@, *final(self), final(mem)@),
            final(mem)@.len() == old(mem)@.len(),
            r is Ok <==> old(self).recv_buf.content(old(mem)@).len() > 0,
            match r {
                Err(e) => {
                    &&& e == Error::NotEnoughData
                    &&& final(self).recv_buf.content(final(mem)@).len() == 0
                    &&& old(self).recv_buf.took_out(
                        *bm,
                        old(mem)@,
                        final(self).recv_buf,
                        final(mem)@,
                        old(self).recv_buf.slices().len() as int,
                        0,
                        None,
                    )
                },
                Ok(b) => {
                    let k = old(self).recv_buf.first_unread(0);
                    &&& b is Shm
                    &&& old(self).recv_buf.took_out(
                        *bm,
                        old(mem)@,
                        final(self).recv_buf,
                        final(mem)@,
                        k,
                        b.content().len() as int,
                        taking::pin_of(b),
                    )
                    &&& final(self).recv_buf.pins().front_pinned()
                    &&& b.content() == old(self).recv_buf.slices()[k].unread(old(mem)@)
                    &&& old(self).recv_buf.content(old(mem)@) == b.content()
                        + final(self).recv_buf.content(final(mem)@)
                },
            },
    {
        proof {
            self.lemma_any_recv(*bm, mem@);
        }
        self.recv_buf.read_chunk(bm, mem)
    }

    /// Takes out exactly `size` bytes, or leaves everything as it is.
    pub fn read_exact_bytes<'a>(
        &'a mut self,
        bm: &BufferManager,
        mem: &'a mut [u8],
        size: usize,
    ) -> (r: Result<Buf<'a>, Error>)
        requires
            old(self).wf(*bm, old(mem)@),
            0 < size <= old(self).recv_buf.content(old(mem)@).len() ==> old(self).recv_buf.can_pin()
                && size <= isize::MAX,
        ensures
            old(self).recv_changed(*bm, old(mem)@, *final(self), final(mem)@),
            final(mem)@.len() == old(mem)@.len(),
            r is Ok <==> size <= old(self).recv_buf.content(old(mem)@).len(),
            match r {
                Err(e) => {
                    &&& e == Error::NotEnoughData
                    &&& *final(self) == *old(self)
                    &&& final(mem)@ == old(mem)@
                },
                Ok(b) => {
                    &&& b.content() == old(self).recv_buf.content(old(mem)@).take(size as int)
                    &&& final(self).recv_buf.content(final(mem)@)
                        == old(self).recv_buf.content(old(mem)@).skip(size as int)
                    &&& b is Shm <==> size > 0 && old(self).recv_buf.front_holds(size as int)
                    &&& old(self).recv_buf.gave_out(
                        *bm,
                        old(mem)@,
                        final(self).recv_buf,
                        final(mem)@,
                        size as int,
                        taking::pin_of(b),
                    )
                    &&& b is Shm ==> final(self).recv_buf.pins().front_pinned()
                },
            },
    {
        proof {
            self.lemma_any_recv(*bm, mem@);
        }
        self.recv_buf.read_exact_bytes(bm, mem, size)
    }

    /// The next `size` bytes, which stay unread.
    pub fn peek<'a>(&'a mut self, bm: &BufferManager, mem: &'a [u8], size: usize) -> (r: Result<
        Buf<'a>,
        Error,
    >)
        requires
            old(self).wf(*bm, mem@),
            0 < size <= old(self).recv_buf.content(mem@).len() ==> old(self).recv_buf.can_pin()
                && size <= isize::MAX,
        ensures
            old(self).recv_changed(*bm, mem@, *final(self), mem@),
            final(self).recv_buf.content(mem@) == old(self).recv_buf.content(mem@),
            r is Ok <==> size <= old(self).recv_buf.content(mem@).len(),
            match r {
                Err(e) => e == Error::NotEnoughData && *final(self) == *old(self),
                Ok(b) => {
                    &&& b.content() == old(self).recv_buf.content(mem@).take(size as int)
                    &&& b is Shm <==> size > 0 && old(self).recv_buf.slices()[0].write_index - old(
                        self,
                    ).recv_buf.slices()[0].read_index >= size
                    &&& old(self).recv_buf.gave_out(
                        *bm,
                        mem@,
                        final(self).recv_buf,
                        mem@,
                        0,
                        old(self).recv_buf.peek_pin(final(self).recv_buf, b),
                    )
                    &&& b is Shm ==> final(self).recv_buf.pins().front_pinned()
                },
            },
            size == 0 ==> *final(self) == *old(self),
    {
        proof {
            self.lemma_any_recv(*bm, mem@);
        }
        self.recv_buf.peek(bm, mem, size)
    }

    /// Drops `size` bytes, or leaves everything as it is.
    pub fn discard(&mut self, bm: &BufferManager, mem: &mut [u8], size: usize) -> (r: Result<
        usize,
        Error,
    >)
        requires
            old(self).wf(*bm, old(mem)@),
            size > 0 || old(self).recv_buf.slices().len() > 0,
        ensures
            old(self).recv_changed(*bm, old(mem)@, *final(self), final(mem)@),
            final(mem)@.len() == old(mem)@.len(),
            r == if size <= old(self).recv_buf.content(old(mem)@).len() {
                Ok::<usize, Error>(size)
            } else {
                Err(Error::NotEnoughData)
            },
            r is Ok ==> final(self).recv_buf.content(final(mem)@) == old(self).recv_buf.content(
                old(mem)@,
            ).skip(size as int),
            r is Ok ==> old(self).recv_buf.gave_out(
                *bm,
                old(mem)@,
                final(self).recv_buf,
                final(mem)@,
                size as int,
                None,
            ),
            r is Err ==> *final(self) == *old(self) && final(mem)@ == old(mem)@,
    {
        proof {
            self.lemma_any_recv(*bm, mem@);
        }
        self.recv_buf.discard(bm, mem, size)
    }

    /// Copies unread bytes into `dst`, from at most `max_slices` slices.
    pub fn read_available_into(
        &mut self,
        bm: &BufferManager,
        mem: &mut [u8],
        dst: &mut tokio::io::ReadBuf<'_>,
        max_slices: usize,
    ) -> (r: Result<usize, Error>)
        requires
            old(self).wf(*bm, old(mem)@),
            max_slices > 0 || outside::read_buf_capacity(*old(dst)) == outside::read_buf_filled(
                *old(dst),
            ).len(),
        ensures
            old(self).recv_changed(*bm, old(mem)@, *final(self), final(mem)@),
            final(mem)@.len() == old(mem)@.len(),
            outside::read_buf_capacity(*final(dst)) == outside::read_buf_capacity(*old(dst)),
            ({
                let c = old(self).recv_buf.content(old(mem)@);
                let filled = outside::read_buf_filled(*old(dst));
                let room = outside::read_buf_capacity(*old(dst)) - filled.len();
                let a = LinkedBuffer::available(
                    old(self).recv_buf.slices().skip(old(self).recv_buf.first_unread(0)),
                    c.len() as int,
                    room,
                    max_slices as int,
                );
                let t = taking::passed(
                    old(self).recv_buf.slices().skip(old(self).recv_buf.first_unread(0)),
                    c.len() as int,
                    room,
                    max_slices as int,
                );
                let unchanged = *final(self) == *old(self) && final(mem)@ == old(mem)@
                    && outside::read_buf_filled(*final(dst)) == filled;
                match old(self).read_ready(1) {
                    Err(e) => r == Err::<usize, Error>(e) && unchanged,
                    Ok(false) => r == Err::<usize, Error>(Error::NotEnoughData) && unchanged,
                    Ok(true) => if room == 0 {
                        r == Ok::<usize, Error>(0) && unchanged
                    } else {
                        &&& 0 < a.0 <= c.len()
                        &&& r == if a.1 {
                            Ok::<usize, Error>(a.0 as usize)
                        } else {
                            Err(Error::NotEnoughData)
                        }
                        &&& final(self).recv_buf.content(final(mem)@) == c.skip(a.0)
                        &&& outside::read_buf_filled(*final(dst)) == filled + c.take(a.0)
                        &&& old(self).recv_buf.took_out(
                            *bm,
                            old(mem)@,
                            final(self).recv_buf,
                            final(mem)@,
                            old(self).recv_buf.first_unread(0) + t.0,
                            t.1,
                            None,
                        )
                    },
                }
            }),
    {
        proof {
            self.lemma_any_recv(*bm, mem@);
            self.recv_buf.lemma_evolves_refl(*bm, mem@);
        }
        match self.check_read_ready(1) {
            Ok(true) => self.recv_buf.read_available_into(bm, mem, dst, max_slices),
            Ok(false) => Err(Error::NotEnoughData),
            Err(e) => Err(e),
        }
    }

    /// Takes back a pin on bytes that were read in place, before the buffers changed places in
    /// [`Stream::release_read_and_reuse`].
    pub fn release_lease_after_reuse(&mut self, bm: &BufferManager, mem: &mut [u8], lease: PinLease)
        requires
            old(self).wf(*bm, old(mem)@),
            0 <= lease.id() < old(self).send_buf.pins().leases().len(),
            old(self).send_buf.pins().leases()[lease.id()] > 0,
        ensures
            final(self).wf(*bm, final(mem)@),
            final(mem)@.len() == old(mem)@.len(),
            old(self).evolves(*bm, old(mem)@, *final(self), final(mem)@),
            final(self).same_but_send(*old(self)),
            final(self).in_fallback_state == old(self).in_fallback_state,
            final(self).recv_buf.content(final(mem)@) == old(self).recv_buf.content(old(mem)@),
            final(self).incoming(*bm, final(mem)@) == old(self).incoming(*bm, old(mem)@),
            final(self).send_buf.content(final(mem)@) == old(self).send_buf.content(old(mem)@),
            final(self).send_buf.slices() == old(self).send_buf.slices(),
            final(self).send_buf.write_pos() == old(self).send_buf.write_pos(),
            final(self).send_buf.from_shm() == old(self).send_buf.from_shm(),
            bm.keeps(old(mem)@, final(mem)@, state::held(old(self).send_buf)),
            old(self).send_buf.pins().unpinned(
                *bm,
                old(mem)@,
                final(self).send_buf.pins(),
                final(mem)@,
                lease.id(),
            ),
    {
        let ghost s0 = *self;
        let ghost m0 = mem@;
        std::mem::swap(&mut self.recv_buf, &mut self.send_buf);
        let ghost s1 = *self;
        proof {
            assert(s1.owned(*bm, m0) =~= s0.owned(*bm, m0));
            assert(state::held(s1.recv_buf).disjoint(state::held(s1.send_buf)));
        }
        self.release_lease(bm, mem, lease);
        let ghost s2 = *self;
        std::mem::swap(&mut self.recv_buf, &mut self.send_buf);
        proof {
            assert(self.owned(*bm, mem@) =~= s2.owned(*bm, mem@));
            assert(state::held(self.recv_buf).disjoint(state::held(self.send_buf)));
        }
    }

    /// Takes back a pin on bytes that were read in place. One that was taken before the buffers
    /// changed places goes to [`Stream::release_lease_after_reuse`].
    pub fn release_lease(&mut self, bm: &BufferManager, mem: &mut [u8], lease: PinLease)
        requires
            old(self).wf(*bm, old(mem)@),
            0 <= lease.id() < old(self).recv_buf.pins().leases().len(),
            old(self).recv_buf.pins().leases()[lease.id()] > 0,
        ensures
            old(self).recv_changed(*bm, old(mem)@, *final(self), final(mem)@),
            final(mem)@.len() == old(mem)@.len(),
            final(self).recv_buf.content(final(mem)@) == old(self).recv_buf.content(old(mem)@),
            final(self).recv_buf.slices() == old(self).recv_buf.slices(),
            final(self).recv_buf.write_pos() == old(self).recv_buf.write_pos(),
            final(self).recv_buf.from_shm() == old(self).recv_buf.from_shm(),
            old(self).recv_buf.pins().unpinned(
                *bm,
                old(mem)@,
                final(self).recv_buf.pins(),
                final(mem)@,
                lease.id(),
            ),
    {
        let ghost s0 = *self;
        let ghost m0 = mem@;
        let ghost id = lease.id();
        self.recv_buf.release_lease(bm, mem, lease);
        proof {
            let rr = s0.recv_buf.pins().retired();
            let tt = self.recv_buf.pins().retired();
            assert forall|o: int| linked::cells(tt).contains(o) implies linked::cells(rr).contains(
                o,
            ) by {
                let i = choose|i: int| #[trigger] linked::cell_at(tt, i, o);
                if tt != rr {
                    let k = s0.recv_buf.pins().retired_ids().index_of(id);
                    let j = if i < k {
                        i
                    } else {
                        i + 1
                    };
                    assert(linked::cell_at(rr, j, o));
                }
            }
            assert forall|o: int| #[trigger] bm.is_allocated(mem@, o) && !state::held(
                self.recv_buf,
            ).contains(o) implies bm.is_allocated(m0, o) && !state::held(
                s0.recv_buf,
            ).contains(o) by {
                if tt != rr || mem@ != m0 {
                    let k = s0.recv_buf.pins().retired_ids().index_of(id);
                    let s = rr[k];
                    if s.is_from_shm {
                        bm.lemma_allocated_back(m0, mem@, s.offset_in_shm as int, o);
                    }
                    if linked::cells(rr).contains(o) {
                        let i = choose|i: int| #[trigger] linked::cell_at(rr, i, o);
                        let j = if i < k {
                            i
                        } else {
                            i - 1
                        };
                        if i != k {
                            assert(linked::cell_at(tt, j, o));
                        }
                    }
                }
            }
            s0.lemma_recv_shrank(*bm, m0, *self, mem@, linked::cells(rr));
            bm.lemma_keeps_wider(m0, mem@, linked::cells(rr), state::held(s0.recv_buf));
        }
    }
}

/// Everything that came in can be read, in the order in which it came and behind what is unread,
/// also after the peer closed the stream. Only where fewer bytes than asked for are there does a
/// reader wait, or learn that the stream is at its end because the peer closed it.
pub proof fn law_what_came_in_is_read(
    s: &mut Stream,
    bm: &BufferManager,
    mem: &mut [u8],
    stats: &mut Stats,
    min_size: usize,
    r: Result<bool, Error>,
)
    requires
        call_ensures(Stream::read_more, (s, bm, mem, stats, min_size), r),
    ensures
        ({
            let all = old(s).recv_buf.content(old(mem)@) + old(s).incoming(*bm, old(mem)@);
            &&& final(s).recv_buf.content(final(mem)@) == all
            &&& old(s).state != STREAM_CLOSED && min_size <= all.len() ==> r == Ok::<bool, Error>(
                true,
            )
            &&& r == Ok::<bool, Error>(true) ==> min_size <= all.len()
            &&& r == Err::<bool, Error>(Error::EndOfStream) <==> old(s).state == STREAM_HALF_CLOSED
                && all.len() < min_size
            &&& r == Err::<bool, Error>(Error::StreamClosed) <==> old(s).state == STREAM_CLOSED
            &&& r is Err ==> r->Err_0 is EndOfStream || r->Err_0 is StreamClosed
        }),
        final(s).pending_data@.len() == 0,
        final(s).state == old(s).state,
        final(s).send_buf == old(s).send_buf,
        final(stats).in_flow_bytes == stats::wrap_add(
            old(stats).in_flow_bytes,
            old(s).incoming(*bm, old(mem)@).len() as u64,
        ),
{
    assert(final(s).recv_buf.wf(*bm, final(mem)@));
}

/// Bytes that are read one after the other are the bytes in their order, without a gap and none
/// twice, however many are read at a time. A read that asks for more than there is takes nothing.
pub proof fn law_reads_follow_one_another(
    s: &mut Stream,
    t: &mut Stream,
    bm: &BufferManager,
    m: &mut [u8],
    n: &mut [u8],
    x: usize,
    y: usize,
    a: Result<Buf, Error>,
    b: Result<Buf, Error>,
)
    requires
        call_ensures(Stream::read_exact_bytes, (s, bm, m, x), a),
        *old(t) == *final(s),
        old(n)@ == final(m)@,
        call_ensures(Stream::read_exact_bytes, (t, bm, n, y), b),
    ensures
        ({
            let c = old(s).recv_buf.content(old(m)@);
            &&& a is Ok <==> x <= c.len()
            &&& a is Err ==> a->Err_0 is NotEnoughData && *final(s) == *old(s) && final(m)@
                == old(m)@
            &&& x + y <= c.len() ==> {
                &&& b is Ok
                &&& a->Ok_0.content() + b->Ok_0.content() =~= c.take(x + y)
                &&& final(t).recv_buf.content(final(n)@) =~= c.skip(x + y)
            }
            &&& x <= c.len() < x + y ==> b is Err && final(t).recv_buf.content(final(n)@)
                =~= c.skip(x as int)
        }),
        final(t).send_buf == old(s).send_buf,
        final(t).pending_data == old(s).pending_data,
        final(t).state == old(s).state,
{
}

/// A look at the next bytes shows what a read then gives, and leaves all of them to be read.
pub proof fn law_peek_shows_what_is_read(
    s: &mut Stream,
    t: &mut Stream,
    bm: &BufferManager,
    m: &[u8],
    n: &mut [u8],
    size: usize,
    a: Result<Buf, Error>,
    b: Result<Buf, Error>,
)
    requires
        call_ensures(Stream::peek, (s, bm, m, size), a),
        *old(t) == *final(s),
        old(n)@ == m@,
        call_ensures(Stream::read_exact_bytes, (t, bm, n, size), b),
    ensures
        a is Ok <==> b is Ok,
        a is Ok <==> size <= old(s).recv_buf.content(m@).len(),
        a is Ok ==> a->Ok_0.content() == b->Ok_0.content(),
        a is Ok ==> a->Ok_0.content() == old(s).recv_buf.content(m@).take(size as int),
        final(s).recv_buf.content(m@) == old(s).recv_buf.content(m@),
        final(s).send_buf == old(s).send_buf,
        final(s).pending_data == old(s).pending_data,
{
}

/// To drop bytes is to read them and forget them: the same ones go, and the same are left.
pub proof fn law_discard_drops_what_a_read_takes(
    s: &mut Stream,
    t: &mut Stream,
    bm: &BufferManager,
    m: &mut [u8],
    n: &mut [u8],
    size: usize,
    a: Result<usize, Error>,
    b: Result<Buf, Error>,
)
    requires
        call_ensures(Stream::discard, (s, bm, m, size), a),
        *old(t) == *old(s),
        old(n)@ == old(m)@,
        call_ensures(Stream::read_exact_bytes, (t, bm, n, size), b),
    ensures
        a is Ok <==> b is Ok,
        a is Ok ==> a->Ok_0 == size,
        a is Err ==> a->Err_0 is NotEnoughData,
        final(s).recv_buf.content(final(m)@) =~= final(t).recv_buf.content(final(n)@),
        a is Ok ==> final(s).recv_buf.content(final(m)@) =~= old(s).recv_buf.content(
            old(m)@,
        ).skip(size as int),
        final(s).send_buf == old(s).send_buf,
        final(s).pending_data == old(s).pending_data,
{
}

/// A chunk is something as long as there is anything to read, and it is what comes next.
pub proof fn law_chunk_is_what_comes_next(
    s: &mut Stream,
    bm: &BufferManager,
    mem: &mut [u8],
    r: Result<Buf, Error>,
)
    requires
        call_ensures(Stream::read_chunk, (s, bm, mem), r),
        old(s).recv_buf.wf(*bm, old(mem)@),
    ensures
        ({
            let c = old(s).recv_buf.content(old(mem)@);
            &&& r is Ok <==> c.len() > 0
            &&& r is Err ==> r->Err_0 is NotEnoughData
            &&& r matches Ok(b) ==> {
                &&& b is Shm
                &&& c == b.content() + final(s).recv_buf.content(final(mem)@)
            }
        }),
        final(s).send_buf == old(s).send_buf,
        final(s).pending_data == old(s).pending_data,
        final(s).state == old(s).state,
{
}

proof fn lemma_all_available(ss: Seq<BufferSlice>, m: Seq<u8>, room: int, max: int)
    requires
        forall|i: int|
            0 <= i < ss.len() ==> (#[trigger] ss[i]).wf(m) && ss[i].read_index < ss[i].write_index,
        room >= 0,
        max >= ss.len(),
    ensures
        ({
            let left = linked::content(ss, m).len() as int;
            LinkedBuffer::available(ss, left, room, max) == (
                if left <= room {
                    left
                } else {
                    room
                },
                true,
            )
        }),
    decreases ss.len(),
{
    if ss.len() > 0 {
        let rest = ss.skip(1);
        linked::lemma_content_len(ss, m, 0);
        assert(ss.take(0) =~= Seq::<BufferSlice>::empty());
        assert(ss[0].unread(m).len() == ss[0].write_index - ss[0].read_index);
        assert forall|i: int| 0 <= i < rest.len() implies (#[trigger] rest[i]).wf(m)
            && rest[i].read_index < rest[i].write_index by {
            assert(rest[i] == ss[i + 1]);
        }
        if room >= ss[0].write_index - ss[0].read_index {
            lemma_all_available(rest, m, room - (ss[0].write_index - ss[0].read_index), max - 1);
        }
    }
}

proof fn lemma_available_fits(ss: Seq<BufferSlice>, left: int, room: int, max: int)
    requires
        room >= 0,
    ensures
        0 <= LinkedBuffer::available(ss, left, room, max).0 <= room,
    decreases ss.len(),
{
    if ss.len() > 0 {
        let size = ss[0].write_index - ss[0].read_index;
        if 0 < size <= room {
            lemma_available_fits(ss.skip(1), left - size, room - size, max - 1);
        }
    }
}

/// What is there is copied out: where there is anything to read and any room, at least one byte is,
/// and every one that is comes next. A stream that the peer closed is read to its end; only then, or
/// where nothing is there yet, is nothing copied.
pub proof fn law_available_bytes_are_copied(
    s: &mut Stream,
    bm: &BufferManager,
    mem: &mut [u8],
    dst: &mut tokio::io::ReadBuf,
    max_slices: usize,
    r: Result<usize, Error>,
)
    requires
        call_ensures(Stream::read_available_into, (s, bm, mem, dst, max_slices), r),
        old(s).recv_buf.wf(*bm, old(mem)@),
        outside::read_buf_filled(*old(dst)).len() <= outside::read_buf_capacity(*old(dst)),
        outside::read_buf_capacity(*old(dst)) <= usize::MAX,
    ensures
        ({
            let c = old(s).recv_buf.content(old(mem)@);
            let before = outside::read_buf_filled(*old(dst));
            let after = outside::read_buf_filled(*final(dst));
            let room = outside::read_buf_capacity(*old(dst)) - before.len();
            let n = after.len() - before.len();
            &&& old(s).state != STREAM_CLOSED && c.len() > 0 && room > 0 ==> n > 0
            &&& 0 <= n <= room && n <= c.len()
            &&& after == before + c.take(n)
            &&& final(s).recv_buf.content(final(mem)@) =~= c.skip(n)
            &&& r matches Ok(k) ==> k == n
            &&& r == Err::<usize, Error>(Error::EndOfStream) <==> old(s).state
                == STREAM_HALF_CLOSED && c.len() == 0
            &&& r == Err::<usize, Error>(Error::StreamClosed) <==> old(s).state == STREAM_CLOSED
            &&& old(s).state == STREAM_OPENED && c.len() == 0 ==> r == Err::<usize, Error>(
                Error::NotEnoughData,
            )
        }),
        final(s).send_buf == old(s).send_buf,
        final(s).pending_data == old(s).pending_data,
        final(s).state == old(s).state,
{
    let c = old(s).recv_buf.content(old(mem)@);
    let before = outside::read_buf_filled(*old(dst));
    assert(c.skip(0) =~= c);
    assert(before + c.take(0) =~= before);
    lemma_available_fits(
        old(s).recv_buf.slices().skip(old(s).recv_buf.first_unread(0)),
        c.len() as int,
        outside::read_buf_capacity(*old(dst)) - before.len(),
        max_slices as int,
    );
}

/// Where every slice holds something and no more of them than may be read at once, all of it is
/// copied that there is room for.
pub proof fn law_all_available_bytes_are_copied(
    s: &mut Stream,
    bm: &BufferManager,
    mem: &mut [u8],
    dst: &mut tokio::io::ReadBuf,
    max_slices: usize,
    r: Result<usize, Error>,
)
    requires
        call_ensures(Stream::read_available_into, (s, bm, mem, dst, max_slices), r),
        old(s).recv_buf.wf(*bm, old(mem)@),
        old(s).state != STREAM_CLOSED,
        old(s).recv_buf.content(old(mem)@).len() > 0,
        old(s).recv_buf.slices().len() <= max_slices,
        forall|i: int|
            0 <= i < old(s).recv_buf.slices().len() ==> (
            #[trigger] old(s).recv_buf.slices()[i]).read_index
                < old(s).recv_buf.slices()[i].write_index,
        outside::read_buf_filled(*old(dst)).len() < outside::read_buf_capacity(*old(dst)),
        outside::read_buf_capacity(*old(dst)) <= usize::MAX,
    ensures
        ({
            let c = old(s).recv_buf.content(old(mem)@);
            let before = outside::read_buf_filled(*old(dst));
            let room = outside::read_buf_capacity(*old(dst)) - before.len();
            let n = if c.len() <= room {
                c.len() as int
            } else {
                room
            };
            &&& r == Ok::<usize, Error>(n as usize)
            &&& outside::read_buf_filled(*final(dst)) == before + c.take(n)
            &&& final(s).recv_buf.content(final(mem)@) == c.skip(n)
        }),
{
    let ss = old(s).recv_buf.slices();
    let before = outside::read_buf_filled(*old(dst));
    let room = outside::read_buf_capacity(*old(dst)) - before.len();
    lemma_all_available(ss, old(mem)@, room, max_slices as int);
    if ss.len() > 0 {
        assert(ss[0].read_index < ss[0].write_index);
        assert(old(s).recv_buf.first_unread(0) == 0);
    }
    assert(ss.skip(0) =~= ss);
}

/// A read can go on at once exactly where its bytes are there and the stream is not closed.
pub proof fn law_before_read_asks_for_the_bytes(s: Stream, size: usize, r: Result<bool, Error>)
    requires
        call_ensures(Stream::before_read, (&s, size), r),
    ensures
        r == Ok::<bool, Error>(true) <==> s.state != STREAM_CLOSED && size <= s.recv_buf.spec_len(),
        r is Err <==> s.state == STREAM_CLOSED,
        r is Err ==> r->Err_0 is StreamClosed,
{
}

/// A pin that comes back changes nothing that is unread or to be sent; one pin fewer is out.
pub proof fn law_returned_pin_changes_no_bytes(
    s: &mut Stream,
    bm: &BufferManager,
    m: &mut [u8],
    lease: PinLease,
    t: &mut Stream,
    n: &mut [u8],
    other: PinLease,
)
    requires
        0 <= lease.id() < old(s).recv_buf.pins().leases().len(),
        old(s).recv_buf.pins().leases()[lease.id()] > 0,
        call_ensures(Stream::release_lease, (s, bm, m, lease), ()),
        0 <= other.id() < old(t).send_buf.pins().leases().len(),
        old(t).send_buf.pins().leases()[other.id()] > 0,
        call_ensures(Stream::release_lease_after_reuse, (t, bm, n, other), ()),
    ensures
        final(s).recv_buf.content(final(m)@) == old(s).recv_buf.content(old(m)@),
        final(s).send_buf == old(s).send_buf,
        final(s).state == old(s).state,
        final(s).recv_buf.pins().leases()[lease.id()] == old(s).recv_buf.pins().leases()[lease.id()]
            - 1,
        final(t).recv_buf == old(t).recv_buf,
        final(t).recv_buf.content(final(n)@) == old(t).recv_buf.content(old(n)@),
        final(t).send_buf.content(final(n)@) == old(t).send_buf.content(old(n)@),
        final(t).state == old(t).state,
        final(t).send_buf.pins().leases()[other.id()] == old(t).send_buf.pins().leases()[other.id()]
            - 1,
{
}

} // verus!
