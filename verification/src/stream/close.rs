//! Taking in data for a stream, and closing it.

use vstd::prelude::*;

use crate::buffer::chain;
use crate::buffer::manager::BufferManager;
use crate::protocol::event;
use crate::queue::{Queue, QueueElement};
use crate::stats;
use crate::stats::Stats;
use crate::stream::life;
use crate::stream::pending;
use crate::stream::pending::BufferSliceWrapper;
use crate::stream::state;
use crate::stream::state::{Stream, STREAM_CLOSED, STREAM_OPENED};
use crate::stream::wakeup::{WakeUp, Wakeup};
use crate::stream::flush;

verus! {

/// How the peer learns that a stream is closed.
#[derive(Debug)]
pub enum CloseStep {
    /// It knows or does not need to.
    Nothing,
    /// By the queue. The peer is to be woken.
    Queued(WakeUp),
    /// By a message over the connection.
    Send(Vec<u8>),
}

impl Stream {
    /// The stream holds nothing but what waits for its pins.
    pub open spec fn is_cleaned(self) -> bool {
        &&& self.pending_data@.len() == 0
        &&& self.recv_buf.slices().len() == 0
        &&& self.recv_buf.spec_len() == 0
        &&& self.send_buf.slices().len() == 0
        &&& self.send_buf.spec_len() == 0
    }

    /// How the buffers of the region went back: those of the pending data until `m1`, those of
    /// the receive buffer until `m2`, those of the send buffer until `m3`.
    pub open spec fn cleaned_by(
        self,
        bm: BufferManager,
        m0: Seq<u8>,
        m1: Seq<u8>,
        m2: Seq<u8>,
        m3: Seq<u8>,
    ) -> bool {
        &&& bm.frees(m1) == life::frees_after(bm, m0, bm.frees(m0), self.pending_data@)
        &&& bm.keeps(m0, m1, state::held_pending(bm, m0, self.pending_data@))
        &&& flush::gave_up(bm, self.recv_buf, m2)
        &&& self.recv_buf.went_back(bm, m1, m2)
        &&& flush::gave_up(bm, self.send_buf, m3)
        &&& self.send_buf.went_back(bm, m2, m3)
    }

    /// Gives up everything that the stream holds.
    pub fn clean_local_buffers(&mut self, bm: &BufferManager, mem: &mut [u8])
        requires
            old(self).wf(*bm, old(mem)@),
        ensures
            final(self).wf(*bm, final(mem)@),
            final(mem)@.len() == old(mem)@.len(),
            old(self).evolves_but(
                *bm,
                old(mem)@,
                *final(self),
                final(mem)@,
                life::let_go(*bm, old(mem)@, old(self).pending_data@),
            ),
            final(self).is_cleaned(),
            old(self).recv_buf.emptied(final(self).recv_buf),
            old(self).send_buf.emptied(final(self).send_buf),
            exists|m1: Seq<u8>, m2: Seq<u8>|
                old(self).cleaned_by(*bm, old(mem)@, m1, m2, final(mem)@),
            bm.in_balance(old(mem)@) ==> bm.in_balance(final(mem)@),
            final(self).id == old(self).id,
            final(self).session_id == old(self).session_id,
            final(self).state == old(self).state,
            final(self).in_fallback_state == old(self).in_fallback_state,
    {
        let ghost s0 = *self;
        let ghost m0 = mem@;
        let ghost gone = life::let_go(*bm, m0, self.pending_data@);
        self.clean_pending_data(bm, mem);
        let ghost s1 = *self;
        let ghost m1 = mem@;
        self.recv_buf.recycle(bm, mem);
        let ghost s2 = *self;
        let ghost m2 = mem@;
        proof {
            s1.lemma_recv_changed(*bm, m1, s2, m2);
            s0.lemma_evolves_but_trans(*bm, m0, s1, m1, s2, m2, gone, Set::empty());
            assert(gone.union(Set::empty()) =~= gone);
        }
        self.send_buf.recycle(bm, mem);
        proof {
            s2.lemma_send_changed(*bm, m2, *self, mem@);
            s0.lemma_evolves_but_trans(*bm, m0, s2, m2, *self, mem@, gone, Set::empty());
            assert(s0.cleaned_by(*bm, m0, m1, m2, mem@));
            if bm.in_balance(m0) {
                s1.recv_buf.law_counts_follow_giving_up(*bm, m1, m2);
                s2.send_buf.law_counts_follow_giving_up(*bm, m2, mem@);
            }
        }
    }

    /// On the way from `self` in `a`, which takes in `data`, to `next` in `b` none but the buffers
    /// of `gone` is lost: `next` holds those of `self` and of the data, and such as were free. One
    /// that is in use after and not held by `next` was in use before, not held by `self` and not
    /// of the data.
    pub open spec fn takes_in_but(
        self,
        bm: BufferManager,
        a: Seq<u8>,
        data: BufferSliceWrapper,
        next: Self,
        b: Seq<u8>,
        gone: Set<int>,
    ) -> bool {
        let own = self.owned(bm, a).union(data.taken(bm, a));
        &&& bm.keeps(a, b, own)
        &&& forall|o: int| #[trigger]
            next.owned(bm, b).contains(o) ==> own.contains(o) || !bm.is_allocated(a, o)
        &&& forall|o: int| #[trigger]
            bm.is_allocated(b, o) && !next.owned(bm, b).contains(o) && !gone.contains(o)
                ==> bm.is_allocated(a, o) && !own.contains(o)
    }

    /// Whether the stream can take in data: it is what a peer sends, and in none of the buffers
    /// that the stream holds.
    pub fn admits(&self, bm: &BufferManager, mem: &[u8], data: &BufferSliceWrapper) -> (r: bool)
        requires
            self.wf(*bm, mem@),
        ensures
            r == (data.wf(*bm, mem@) && data.taken(*bm, mem@).disjoint(self.owned(*bm, mem@))),
    {
        if !data.is_in_order(bm, mem) {
            return false;
        }
        let ghost m = mem@;
        let ghost own = self.owned(*bm, m);
        let ghost ws = self.pending_data@;
        let v: Vec<u32> = data.buffers(bm, mem);
        let ghost q = chain::positions(v@);
        let n: usize = v.len();
        let mut i: usize = 0;
        while i < n
            invariant
                m == mem@,
                n == v@.len(),
                q == chain::positions(v@),
                q.to_set() == data.taken(*bm, m),
                own == self.owned(*bm, m),
                0 <= i <= n,
                forall|j: int|
                    0 <= j < i ==> !state::held(self.recv_buf).contains(#[trigger] q[j])
                        && !state::held(self.send_buf).contains(q[j]),
            decreases n - i,
        {
            if self.recv_buf.has_buffer(v[i]) || self.send_buf.has_buffer(v[i]) {
                proof {
                    let o = q[i as int];
                    assert(q.to_set().contains(o));
                    assert(own.contains(o));
                }
                return false;
            }
            i = i + 1;
        }
        let count: usize = self.pending_data.len();
        let mut k: usize = 0;
        while k < count
            invariant
                m == mem@,
                self.wf(*bm, m),
                count == self.pending_data@.len(),
                ws == self.pending_data@,
                q == chain::positions(v@),
                q.to_set() == data.taken(*bm, m),
                own == self.owned(*bm, m),
                0 <= k <= count,
                forall|j: int|
                    0 <= j < k ==> (#[trigger] ws[j]).taken(*bm, m).disjoint(q.to_set()),
            decreases count - k,
        {
            assert(ws[k as int].wf(*bm, m));
            let w: Vec<u32> = self.pending_data[k].buffers(bm, mem);
            let ghost p = chain::positions(w@);
            let size: usize = w.len();
            let mut j: usize = 0;
            while j < size
                invariant
                    size == w@.len(),
                    p == chain::positions(w@),
                    q == chain::positions(v@),
                    p.to_set() == ws[k as int].taken(*bm, m),
                    q.to_set() == data.taken(*bm, m),
                    own == self.owned(*bm, m),
                    ws == self.pending_data@,
                    0 <= k < ws.len(),
                    0 <= j <= size,
                    m == mem@,
                    forall|x: int| 0 <= x < j ==> !q.contains(#[trigger] p[x]),
                decreases size - j,
            {
                if chain::is_among(&v, w[j]) {
                    proof {
                        let o = p[j as int];
                        assert(p.to_set().contains(o));
                        assert(q.to_set().contains(o));
                        assert(state::held_pending(*bm, m, ws).contains(o));
                        assert(own.contains(o));
                    }
                    return false;
                }
                j = j + 1;
            }
            k = k + 1;
        }
        assert(data.taken(*bm, m).disjoint(own)) by {
            assert forall|o: int| q.to_set().contains(o) implies !own.contains(o) by {
                let j = choose|j: int| 0 <= j < q.len() && q[j] == o;
                assert(!state::held(self.recv_buf).contains(q[j]));
                if state::held_pending(*bm, m, ws).contains(o) {
                    let x = choose|x: int|
                        0 <= x < ws.len() && (#[trigger] ws[x]).taken(*bm, m).contains(o);
                    assert(ws[x].taken(*bm, m).disjoint(q.to_set()));
                }
            }
        }
        true
    }

    /// Takes in data. Tells whether those who wait for it have to know; a stream that was closed
    /// gives it back at once.
    pub fn fill_data_to_read_buffer(
        &mut self,
        bm: &BufferManager,
        mem: &mut [u8],
        data: BufferSliceWrapper,
    ) -> (r: bool)
        requires
            old(self).wf(*bm, old(mem)@),
            data.wf(*bm, old(mem)@),
            data.taken(*bm, old(mem)@).disjoint(old(self).owned(*bm, old(mem)@)),
        ensures
            r == (old(self).state != STREAM_CLOSED),
            final(self).wf(*bm, final(mem)@),
            final(mem)@.len() == old(mem)@.len(),
            old(self).takes_in_but(
                *bm,
                old(mem)@,
                data,
                *final(self),
                final(mem)@,
                if r {
                    Set::empty()
                } else {
                    life::let_go(*bm, old(mem)@, old(self).pending_data@.push(data))
                },
            ),
            final(self).id == old(self).id,
            final(self).session_id == old(self).session_id,
            final(self).state == old(self).state,
            final(self).in_fallback_state == old(self).in_fallback_state,
            final(self).send_buf == old(self).send_buf,
            final(self).send_buf.content(final(mem)@) == old(self).send_buf.content(old(mem)@),
            old(self).send_buf.sendable(old(mem)@) ==> final(self).send_buf.sendable(final(mem)@),
            r ==> {
                &&& final(mem)@ == old(mem)@
                &&& final(self).recv_buf == old(self).recv_buf
                &&& final(self).pending_data@ == old(self).pending_data@.push(data)
                &&& final(self).incoming(*bm, final(mem)@) == old(self).incoming(*bm, old(mem)@)
                    + data.bytes(*bm, old(mem)@)
            },
            bm.in_balance(old(mem)@) ==> bm.in_balance(final(mem)@),
            !r ==> {
                &&& final(self).pending_data@.len() == 0
                &&& old(self).recv_buf.emptied(final(self).recv_buf)
                &&& flush::gave_up(*bm, old(self).recv_buf, final(mem)@)
                &&& exists|m1: Seq<u8>|
                    {
                        &&& #[trigger] old(self).recv_buf.went_back(*bm, m1, final(mem)@)
                        &&& bm.frees(m1) == life::frees_after(
                            *bm,
                            old(mem)@,
                            bm.frees(old(mem)@),
                            old(self).pending_data@.push(data),
                        )
                        &&& bm.keeps(
                            old(mem)@,
                            m1,
                            state::held_pending(
                                *bm,
                                old(mem)@,
                                old(self).pending_data@.push(data),
                            ),
                        )
                    }
            },
    {
        let ghost s0 = *self;
        let ghost m0 = mem@;
        self.pending_data.push(data);
        let ghost s1 = *self;
        proof {
            Self::lemma_took_in(*bm, s0, s1, m0, data);
        }
        if self.state == STREAM_CLOSED {
            self.clean_pending_data(bm, mem);
            let ghost s2 = *self;
            let ghost m2 = mem@;
            self.recv_buf.recycle(bm, mem);
            proof {
                s2.lemma_recv_changed(*bm, m2, *self, mem@);
                let gone = life::let_go(*bm, m0, s1.pending_data@);
                s1.lemma_evolves_but_trans(*bm, m0, s2, m2, *self, mem@, gone, Set::empty());
                assert(gone.union(Set::empty()) =~= gone);
                bm.lemma_keeps_wider(
                    m0,
                    mem@,
                    s1.owned(*bm, m0),
                    s0.owned(*bm, m0).union(data.taken(*bm, m0)),
                );
                assert(s0.recv_buf.went_back(*bm, m2, mem@));
                if bm.in_balance(m0) {
                    s2.recv_buf.law_counts_follow_giving_up(*bm, m2, mem@);
                }
            }
            return false;
        }
        proof {
            reveal(BufferManager::keeps);
        }
        true
    }

    /// One more piece of data came in.
    proof fn lemma_took_in(
        bm: BufferManager,
        a: Self,
        b: Self,
        m: Seq<u8>,
        data: BufferSliceWrapper,
    )
        requires
            a.wf(bm, m),
            data.wf(bm, m),
            data.taken(bm, m).disjoint(a.owned(bm, m)),
            b.pending_data@ == a.pending_data@.push(data),
            b.recv_buf == a.recv_buf,
            b.send_buf == a.send_buf,
            b.state == a.state,
        ensures
            b.wf(bm, m),
            b.incoming(bm, m) == a.incoming(bm, m) + data.bytes(bm, m),
            b.owned(bm, m) == a.owned(bm, m).union(data.taken(bm, m)),
    {
        let ws = a.pending_data@;
        let t = data.taken(bm, m);
        assert forall|i: int| 0 <= i < ws.len() implies (#[trigger] ws[i]).taken(bm, m).disjoint(
            t,
        ) by {
            assert forall|o: int| !(ws[i].taken(bm, m).contains(o) && t.contains(o)) by {
                if ws[i].taken(bm, m).contains(o) {
                    assert(state::held_pending(bm, m, ws).contains(o));
                    assert(a.owned(bm, m).contains(o));
                }
            }
        }
        pending::lemma_pending_push(bm, m, ws, data);
        assert(t.disjoint(state::held(a.recv_buf))) by {
            assert forall|o: int| t.contains(o) implies !state::held(a.recv_buf).contains(o) by {
                assert(!a.owned(bm, m).contains(o));
            }
        }
        assert(t.disjoint(state::held(a.send_buf))) by {
            assert forall|o: int| t.contains(o) implies !state::held(a.send_buf).contains(o) by {
                assert(!a.owned(bm, m).contains(o));
            }
        }
        assert(pending::pending_apart(bm, m, ws, state::held(a.recv_buf)));
        assert(pending::pending_apart(bm, m, ws, state::held(a.send_buf)));
        let us = b.pending_data@;
        assert forall|o: int| b.owned(bm, m).contains(o) implies a.owned(bm, m).union(t).contains(
            o,
        ) by {
            if state::held_pending(bm, m, us).contains(o) {
                let i = choose|i: int|
                    0 <= i < us.len() && (#[trigger] us[i]).taken(bm, m).contains(o);
                if i < ws.len() {
                    assert(ws[i].taken(bm, m).contains(o));
                }
            }
        }
        assert forall|o: int| a.owned(bm, m).union(t).contains(o) implies b.owned(bm, m).contains(
            o,
        ) by {
            if state::held_pending(bm, m, ws).contains(o) {
                let i = choose|i: int|
                    0 <= i < ws.len() && (#[trigger] ws[i]).taken(bm, m).contains(o);
                assert(us[i].taken(bm, m).contains(o));
            } else if t.contains(o) {
                assert(us[ws.len() as int].taken(bm, m).contains(o));
            }
        }
        assert(b.owned(bm, m) =~= a.owned(bm, m).union(t));
    }

    /// The peer is told by the queue.
    pub open spec fn closes_by_queue(self, shutdown: bool, queue: Queue, m: Seq<u8>) -> bool {
        &&& self.state == STREAM_OPENED
        &&& !shutdown
        &&& !self.in_fallback_state
        &&& queue.elements(m).len() < queue.capacity()
    }

    /// Closes the stream. The first part of the result tells whether those who wait for the
    /// stream have to know, the second how the peer learns of it. The caller takes the stream out
    /// of its session.
    pub fn close(
        &mut self,
        bm: &BufferManager,
        mem: &mut [u8],
        queue: &Queue,
        queue_mem: &mut [u8],
        wakeup: &Wakeup,
        stats: &mut Stats,
        shutdown: bool,
    ) -> (r: (bool, CloseStep))
        requires
            old(self).wf(*bm, old(mem)@),
            queue.wf(old(queue_mem)@),
            queue.tail(old(queue_mem)@) < i64::MAX,
            wakeup.msg_version <= 3,
        ensures
            final(self).wf(*bm, final(mem)@),
            final(mem)@.len() == old(mem)@.len(),
            old(self).evolves_but(
                *bm,
                old(mem)@,
                *final(self),
                final(mem)@,
                life::let_go(*bm, old(mem)@, old(self).pending_data@),
            ),
            queue.wf(final(queue_mem)@),
            final(self).id == old(self).id,
            final(self).session_id == old(self).session_id,
            final(self).state == STREAM_CLOSED,
            final(self).in_fallback_state == old(self).in_fallback_state,
            r.0 == (old(self).state == STREAM_OPENED),
            old(self).state == STREAM_CLOSED ==> {
                &&& *final(self) == *old(self)
                &&& final(mem)@ == old(mem)@
            },
            old(self).state != STREAM_CLOSED ==> {
                &&& final(self).is_cleaned()
                &&& old(self).recv_buf.emptied(final(self).recv_buf)
                &&& old(self).send_buf.emptied(final(self).send_buf)
                &&& exists|m1: Seq<u8>, m2: Seq<u8>|
                    old(self).cleaned_by(*bm, old(mem)@, m1, m2, final(mem)@)
            },
            bm.in_balance(old(mem)@) ==> bm.in_balance(final(mem)@),
            if old(self).state != STREAM_OPENED || shutdown {
                &&& r.1 is Nothing
                &&& final(queue_mem)@ == old(queue_mem)@
                &&& *final(stats) == *old(stats)
            } else if old(self).closes_by_queue(shutdown, *queue, old(queue_mem)@) {
                &&& r.1 is Queued
                &&& wakeup.announced(
                    r.1->Queued_0,
                    *queue,
                    old(queue_mem)@,
                    final(queue_mem)@,
                    (QueueElement {
                        seq_id: old(self).id,
                        offset_in_shm_buf: 0,
                        status: STREAM_CLOSED,
                    }),
                )
                &&& *final(stats) == wakeup.counted(*old(stats), *queue, old(queue_mem)@)
            } else {
                &&& r.1 is Send
                &&& r.1->Send_0@ == event::close_frame(wakeup.msg_version, old(self).id)
                &&& final(queue_mem)@ == old(queue_mem)@
                &&& *final(stats) == if old(self).in_fallback_state {
                    *old(stats)
                } else {
                    Stats {
                        queue_full_error_count: stats::wrap_add(
                            old(stats).queue_full_error_count,
                            1,
                        ),
                        ..*old(stats)
                    }
                }
            },
    {
        let ghost s0 = *self;
        let ghost m0 = mem@;
        let old_state: u32 = self.state;
        self.state = STREAM_CLOSED;
        let ghost s1 = *self;
        proof {
            s0.lemma_evolves_refl(*bm, m0);
            assert(s1.owned(*bm, m0) == s0.owned(*bm, m0));
        }
        if old_state == STREAM_CLOSED {
            return (false, CloseStep::Nothing);
        }
        self.clean_local_buffers(bm, mem);
        proof {
            let gone = life::let_go(*bm, m0, s0.pending_data@);
            s0.lemma_evolves_but_trans(*bm, m0, s1, m0, *self, mem@, Set::empty(), gone);
            assert(Set::<int>::empty().union(gone) =~= gone);
            let (m1, m2) = choose|m1: Seq<u8>, m2: Seq<u8>| s1.cleaned_by(*bm, m0, m1, m2, mem@);
            assert(s0.cleaned_by(*bm, m0, m1, m2, mem@));
        }
        if old_state != STREAM_OPENED {
            return (false, CloseStep::Nothing);
        }
        if shutdown {
            return (true, CloseStep::Nothing);
        }
        if !self.in_fallback_state {
            let element = QueueElement {
                seq_id: self.id,
                offset_in_shm_buf: 0,
                status: STREAM_CLOSED,
            };
            match wakeup.announce(queue, queue_mem, element, stats) {
                Some(up) => {
                    return (true, CloseStep::Queued(up));
                },
                None => {
                    stats::count(&mut stats.queue_full_error_count, 1);
                },
            }
        }
        (true, CloseStep::Send(event::close_event(wakeup.msg_version, self.id)))
    }
}

/// Two managers of one region: the same lists with the same free buffers.
pub open spec fn same_region(a: BufferManager, b: BufferManager, m: Seq<u8>) -> bool {
    &&& a.wf(m)
    &&& b.wf(m)
    &&& a.lists@.len() == b.lists@.len()
    &&& forall|i: int|
        0 <= i < a.lists@.len() ==> {
            &&& (#[trigger] a.lists@[i]).offset_in_shm == b.lists@[i].offset_in_shm
            &&& a.lists@[i].cap == b.lists@[i].cap
            &&& a.lists@[i].cap_per_buffer == b.lists@[i].cap_per_buffer
            &&& a.lists@[i].free(m) == b.lists@[i].free(m)
        }
}

proof fn lemma_same_allocated(a: BufferManager, b: BufferManager, m: Seq<u8>, o: int)
    requires
        same_region(a, b, m),
        a.is_allocated(m, o),
    ensures
        b.is_allocated(m, o),
{
    let i = choose|i: int| #[trigger] a.in_use(m, i, o);
    let x = a.lists@[i];
    let y = b.lists@[i];
    assert(x.region() == y.region());
    assert(y.is_node(o - y.region())) by {
        reveal(crate::buffer::list::BufferList::is_node);
    }
    assert(b.in_use(m, i, o));
}

proof fn lemma_same_chain(a: BufferManager, b: BufferManager, m: Seq<u8>, q: Seq<int>)
    requires
        same_region(a, b, m),
        a.is_chain(m, q),
    ensures
        b.is_chain(m, q),
        b.chain_from(m, q[0]) == q,
        a.chain_from(m, q[0]) == q,
{
    assert forall|i: int| 0 <= i < q.len() implies b.is_allocated(m, #[trigger] q[i]) by {
        lemma_same_allocated(a, b, m, q[i]);
    }
    b.lemma_chain_unique(m, q);
    a.lemma_chain_unique(m, q);
}

/// What one side flushed, the other receives: a stream of the peer that takes in the position out
/// of the queue has the bytes that were written, behind what came in before.
pub proof fn law_peer_receives_what_was_flushed(
    bm: BufferManager,
    peer: BufferManager,
    m: Seq<u8>,
    offset: u32,
    bytes: Seq<u8>,
    own: Set<int>,
    receiver: Stream,
    after: Stream,
)
    requires
        flush::sends(bm, m, offset, bytes, own),
        same_region(bm, peer, m),
        receiver.wf(peer, m),
        own.disjoint(receiver.owned(peer, m)),
        after.pending_data@ == receiver.pending_data@.push(
            BufferSliceWrapper { fallback_slice: None, offset },
        ),
        after.recv_buf == receiver.recv_buf,
        after.send_buf == receiver.send_buf,
        after.state == receiver.state,
    ensures
        after.wf(peer, m),
        after.incoming(peer, m) == receiver.incoming(peer, m) + bytes,
{
    let w = BufferSliceWrapper { fallback_slice: None, offset };
    let q = bm.chain_from(m, offset as int);
    lemma_same_chain(bm, peer, m, q);
    assert(w.wf(peer, m));
    assert(w.bytes(peer, m) == bytes);
    assert(w.taken(peer, m) == own);
    Stream::lemma_took_in(peer, receiver, after, m, w);
}

/// An open stream tells the peer that it closes: through the queue, behind everything that it sent
/// there, where that has room and nothing of it went over the connection, and over the connection
/// otherwise. A stream that the peer closed, or that was closed before, tells nobody, nor does one
/// of a session that is shut down. Afterwards the stream is closed and holds nothing.
pub proof fn law_close_is_told(
    s: &mut Stream,
    bm: &BufferManager,
    m: &mut [u8],
    queue: &Queue,
    qm: &mut [u8],
    wakeup: &Wakeup,
    stats: &mut Stats,
    shutdown: bool,
    r: (bool, CloseStep),
    message: Vec<u8>,
)
    requires
        call_ensures(Stream::close, (s, bm, m, queue, qm, wakeup, stats, shutdown), r),
        call_ensures(event::close_event, (wakeup.msg_version, old(s).id), message),
    ensures
        r.1 is Nothing <==> old(s).state != STREAM_OPENED || shutdown,
        r.1 is Queued <==> old(s).state == STREAM_OPENED && !shutdown && !old(s).in_fallback_state
            && queue.elements(old(qm)@).len() < queue.capacity(),
        r.1 is Queued ==> queue.elements(final(qm)@) == queue.elements(old(qm)@).push(
            QueueElement { seq_id: old(s).id, offset_in_shm_buf: 0, status: 1 },
        ),
        r.1 is Send ==> r.1->Send_0@ == message@,
        !(r.1 is Queued) ==> final(qm)@ == old(qm)@,
        r.0 <==> old(s).state == STREAM_OPENED,
        final(s).state == STREAM_CLOSED,
        old(s).state != STREAM_CLOSED ==> final(s).pending_data@.len() == 0
            && final(s).recv_buf.spec_len() == 0 && final(s).recv_buf.slices().len() == 0
            && final(s).send_buf.spec_len() == 0 && final(s).send_buf.slices().len() == 0,
        final(s).id == old(s).id,
{
}

/// To close a stream a second time changes nothing and tells nobody.
pub proof fn law_second_close_does_nothing(
    s: &mut Stream,
    t: &mut Stream,
    bm: &BufferManager,
    m: &mut [u8],
    n: &mut [u8],
    queue: &Queue,
    qm: &mut [u8],
    qn: &mut [u8],
    wakeup: &Wakeup,
    x: &mut Stats,
    y: &mut Stats,
    a: bool,
    b: bool,
    r: (bool, CloseStep),
    q: (bool, CloseStep),
)
    requires
        call_ensures(Stream::close, (s, bm, m, queue, qm, wakeup, x, a), r),
        *old(t) == *final(s),
        call_ensures(Stream::close, (t, bm, n, queue, qn, wakeup, y, b), q),
    ensures
        !q.0,
        q.1 is Nothing,
        *final(t) == *final(s),
        final(n)@ == old(n)@,
        final(qn)@ == old(qn)@,
        *final(y) == *old(y),
{
}

/// Data that comes in stands behind what came before, unless the stream was closed: then nothing is
/// kept. A reader learns of it exactly where it was kept.
pub proof fn law_data_is_kept_in_order(
    s: &mut Stream,
    t: &mut Stream,
    bm: &BufferManager,
    m: &mut [u8],
    n: &mut [u8],
    x: BufferSliceWrapper,
    y: BufferSliceWrapper,
    a: bool,
    b: bool,
)
    requires
        call_ensures(Stream::fill_data_to_read_buffer, (s, bm, m, x), a),
        *old(t) == *final(s),
        old(n)@ == final(m)@,
        call_ensures(Stream::fill_data_to_read_buffer, (t, bm, n, y), b),
    ensures
        a <==> old(s).state != STREAM_CLOSED,
        b <==> a,
        a ==> {
            &&& final(t).incoming(*bm, final(n)@) =~= old(s).incoming(*bm, old(m)@) + x.bytes(
                *bm,
                old(m)@,
            ) + y.bytes(*bm, old(m)@)
            &&& final(n)@ == old(m)@
            &&& final(t).recv_buf == old(s).recv_buf
        },
        !a ==> final(t).pending_data@.len() == 0 && final(t).recv_buf.spec_len() == 0,
        final(t).send_buf == old(s).send_buf,
        final(t).state == old(s).state,
{
}

/// A close counts a full queue and a wakeup, and nothing else. No buffer is lost over it: what the
/// stream held is free, but for what waits for its pins and for data behind a position that is none.
pub proof fn law_close_counts_and_gives_back(
    s: &mut Stream,
    bm: &BufferManager,
    m: &mut [u8],
    queue: &Queue,
    qm: &mut [u8],
    wakeup: &Wakeup,
    stats: &mut Stats,
    shutdown: bool,
    r: (bool, CloseStep),
    o: int,
)
    requires
        call_ensures(Stream::close, (s, bm, m, queue, qm, wakeup, stats, shutdown), r),
    ensures
        *final(stats) == (Stats {
            queue_full_error_count: if r.1 is Send && !old(s).in_fallback_state {
                stats::wrap_add(old(stats).queue_full_error_count, 1)
            } else {
                old(stats).queue_full_error_count
            },
            send_polling_event_count: if r.1 is Queued && !(r.1->Queued_0 is Nothing) {
                stats::wrap_add(old(stats).send_polling_event_count, 1)
            } else {
                old(stats).send_polling_event_count
            },
            ..*old(stats)
        }),
        old(s).owned(*bm, old(m)@).contains(o) && !final(s).owned(*bm, final(m)@).contains(o)
            && !life::let_go(*bm, old(m)@, old(s).pending_data@).contains(o) ==> !bm.is_allocated(
            final(m)@,
            o,
        ),
{
}

/// Data is let in where it is sound and lies in no buffer that the stream holds already. Data that
/// came over the connection lies in none at all.
pub proof fn law_data_is_let_in_once(
    s: Stream,
    bm: &BufferManager,
    m: &[u8],
    data: BufferSliceWrapper,
    r: bool,
    o: int,
)
    requires
        call_ensures(Stream::admits, (&s, bm, m, &data), r),
    ensures
        r && data.taken(*bm, m@).contains(o) ==> !s.owned(*bm, m@).contains(o),
        r ==> data.wf(*bm, m@),
        data.wf(*bm, m@) && data.fallback_slice is Some ==> r,
        data.wf(*bm, m@) && !r ==> exists|x: int| #[trigger]
            data.taken(*bm, m@).contains(x) && s.owned(*bm, m@).contains(x),
{
    if data.wf(*bm, m@) && !r {
        if forall|x: int| #[trigger]
            data.taken(*bm, m@).contains(x) ==> !s.owned(*bm, m@).contains(x) {
            assert(data.taken(*bm, m@).disjoint(s.owned(*bm, m@)));
        }
    }
}

} // verus!
