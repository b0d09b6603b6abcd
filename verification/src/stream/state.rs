//! A stream and what it holds of the region.

use vstd::prelude::*;

use crate::buffer::linked;
use crate::buffer::linked::LinkedBuffer;
use crate::buffer::manager::BufferManager;
use crate::buffer::slice::BufferSlice;
use crate::stats;
use crate::stats::Stats;
use crate::stream::pending;
use crate::stream::pending::BufferSliceWrapper;

verus! {

pub const STREAM_OPENED: u32 = 0;

pub const STREAM_CLOSED: u32 = 1;

pub const STREAM_HALF_CLOSED: u32 = 2;

/// A logical connection within a session.
#[derive(Debug)]
pub struct Stream {
    pub id: u32,
    pub session_id: usize,
    pub recv_buf: LinkedBuffer,
    pub send_buf: LinkedBuffer,
    /// What came in and was not yet taken up.
    pub pending_data: Vec<BufferSliceWrapper>,
    pub state: u32,
    /// Once data went over the connection, all of it does, to keep its order.
    pub in_fallback_state: bool,
}

/// The buffers of the region that a linked buffer holds.
pub open spec fn held(b: LinkedBuffer) -> Set<int> {
    linked::cells(b.slices()).union(linked::cells(b.pins().retired()))
}

/// The buffers of the region that pending data is in.
pub open spec fn held_pending(
    bm: BufferManager,
    m: Seq<u8>,
    ws: Seq<BufferSliceWrapper>,
) -> Set<int> {
    Set::new(
        |o: int|
            exists|i: int| 0 <= i < ws.len() && (#[trigger] ws[i]).taken(bm, m).contains(o),
    )
}

impl Stream {
    /// The buffers of the region that the stream holds.
    pub open spec fn owned(self, bm: BufferManager, m: Seq<u8>) -> Set<int> {
        held(self.recv_buf).union(held(self.send_buf)).union(
            held_pending(bm, m, self.pending_data@),
        )
    }

    /// Both buffers and the pending data are in order, and no two of them share a buffer of the
    /// region.
    pub open spec fn wf(self, bm: BufferManager, m: Seq<u8>) -> bool {
        &&& self.recv_buf.wf(bm, m)
        &&& self.send_buf.wf(bm, m)
        &&& pending::pending_wf(bm, m, self.pending_data@)
        &&& held(self.recv_buf).disjoint(held(self.send_buf))
        &&& pending::pending_apart(bm, m, self.pending_data@, held(self.recv_buf))
        &&& pending::pending_apart(bm, m, self.pending_data@, held(self.send_buf))
        &&& self.state == STREAM_OPENED || self.state == STREAM_CLOSED || self.state
            == STREAM_HALF_CLOSED
    }

    /// The bytes that came in and were not yet taken up.
    pub open spec fn incoming(self, bm: BufferManager, m: Seq<u8>) -> Seq<u8> {
        pending::pending_bytes(bm, m, self.pending_data@)
    }

    /// On the way from `self` in `a` to `next` in `b` no buffer but those of `self` changed, and
    /// the buffers of `next` are those of `self` and such as were free. None but those of `gone` is
    /// lost: one that is in use after and not held by `next` was in use before and not held by
    /// `self`.
    pub open spec fn evolves_but(
        self,
        bm: BufferManager,
        a: Seq<u8>,
        next: Self,
        b: Seq<u8>,
        gone: Set<int>,
    ) -> bool {
        &&& bm.keeps(a, b, self.owned(bm, a))
        &&& forall|o: int| #[trigger]
            next.owned(bm, b).contains(o) ==> self.owned(bm, a).contains(o) || !bm.is_allocated(
                a,
                o,
            )
        &&& forall|o: int| #[trigger]
            bm.is_allocated(b, o) && !next.owned(bm, b).contains(o) && !gone.contains(o)
                ==> bm.is_allocated(a, o) && !self.owned(bm, a).contains(o)
    }

    /// On the way from `self` in `a` to `next` in `b` no buffer but those of `self` changed, the
    /// buffers of `next` are those of `self` and such as were free, and none is lost.
    pub open spec fn evolves(self, bm: BufferManager, a: Seq<u8>, next: Self, b: Seq<u8>) -> bool {
        self.evolves_but(bm, a, next, b, Set::empty())
    }

    /// What a stream holds is in use.
    pub proof fn lemma_owned_allocated(self, bm: BufferManager, m: Seq<u8>, o: int)
        requires
            self.wf(bm, m),
            self.owned(bm, m).contains(o),
        ensures
            bm.is_allocated(m, o),
    {
        if linked::cells(self.recv_buf.slices()).contains(o) {
            linked::lemma_cells_allocated(bm, m, self.recv_buf.slices(), o);
        } else if linked::cells(self.recv_buf.pins().retired()).contains(o) {
            linked::lemma_cells_allocated(bm, m, self.recv_buf.pins().retired(), o);
        } else if linked::cells(self.send_buf.slices()).contains(o) {
            linked::lemma_cells_allocated(bm, m, self.send_buf.slices(), o);
        } else if linked::cells(self.send_buf.pins().retired()).contains(o) {
            linked::lemma_cells_allocated(bm, m, self.send_buf.pins().retired(), o);
        } else {
            let ws = self.pending_data@;
            let i = choose|i: int|
                0 <= i < ws.len() && (#[trigger] ws[i]).taken(bm, m).contains(o);
            let q = bm.chain_from(m, ws[i].offset as int);
            assert(q.to_set().contains(o));
            let k = choose|k: int| 0 <= k < q.len() && q[k] == o;
            assert(bm.is_allocated(m, q[k]));
        }
    }

    /// What one stream does, another does not notice: one that shares no buffer of the region
    /// with it keeps what it holds and what came in for it, and still shares none.
    pub proof fn law_streams_do_not_disturb(
        self,
        bm: BufferManager,
        a: Seq<u8>,
        next: Self,
        b: Seq<u8>,
        gone: Set<int>,
        other: Self,
    )
        requires
            self.evolves_but(bm, a, next, b, gone),
            bm.wf(b),
            other.wf(bm, a),
            self.owned(bm, a).disjoint(other.owned(bm, a)),
        ensures
            other.wf(bm, b),
            other.recv_buf.content(b) == other.recv_buf.content(a),
            other.send_buf.content(b) == other.send_buf.content(a),
            other.send_buf.sendable(a) ==> other.send_buf.sendable(b),
            other.incoming(bm, b) == other.incoming(bm, a),
            other.owned(bm, b) == other.owned(bm, a),
            next.owned(bm, b).disjoint(other.owned(bm, b)),
    {
        let own = self.owned(bm, a);
        let theirs = other.owned(bm, a);
        assert(held(other.recv_buf).subset_of(theirs));
        assert(held(other.send_buf).subset_of(theirs));
        assert(linked::cells(other.recv_buf.slices()).disjoint(own));
        assert(linked::cells(other.recv_buf.pins().retired()).disjoint(own));
        assert(linked::cells(other.send_buf.slices()).disjoint(own));
        assert(linked::cells(other.send_buf.pins().retired()).disjoint(own));
        pending::lemma_buffer_kept(bm, a, b, own, other.recv_buf);
        pending::lemma_buffer_kept(bm, a, b, own, other.send_buf);
        if other.send_buf.sendable(a) {
            other.send_buf.lemma_sendable_kept(bm, a, b, own);
        }
        let ws = other.pending_data@;
        assert forall|i: int| 0 <= i < ws.len() implies (#[trigger] ws[i]).taken(bm, a).disjoint(
            own,
        ) by {
            assert forall|o: int| !(ws[i].taken(bm, a).contains(o) && own.contains(o)) by {
                if ws[i].taken(bm, a).contains(o) {
                    assert(theirs.contains(o));
                }
            }
        }
        pending::lemma_pending_kept(bm, a, b, own, ws);
        lemma_held_pending_same(bm, a, b, ws);
        assert(other.owned(bm, b) =~= theirs);
        assert forall|i: int| 0 <= i < ws.len() implies (#[trigger] ws[i]).taken(bm, b).disjoint(
            held(other.recv_buf),
        ) && ws[i].taken(bm, b).disjoint(held(other.send_buf)) by {
            assert(ws[i].taken(bm, a).disjoint(held(other.recv_buf)));
            assert(ws[i].taken(bm, a).disjoint(held(other.send_buf)));
        }
        assert forall|o: int| !(next.owned(bm, b).contains(o) && theirs.contains(o)) by {
            if theirs.contains(o) {
                other.lemma_owned_allocated(bm, a, o);
            }
        }
    }

    /// No buffer gets lost: one that the stream held and does not hold any more was handed over, or
    /// it is free.
    pub proof fn law_no_buffer_is_lost(
        self,
        bm: BufferManager,
        a: Seq<u8>,
        next: Self,
        b: Seq<u8>,
        gone: Set<int>,
        o: int,
    )
        requires
            self.evolves_but(bm, a, next, b, gone),
            self.owned(bm, a).contains(o),
        ensures
            next.owned(bm, b).contains(o) || gone.contains(o) || !bm.is_allocated(b, o),
    {
    }

    /// The receive buffer changed and nothing else.
    pub proof fn lemma_recv_changed(
        self,
        bm: BufferManager,
        a: Seq<u8>,
        next: Self,
        b: Seq<u8>,
    )
        requires
            self.wf(bm, a),
            self.recv_buf.evolves(bm, a, next.recv_buf, b),
            next.recv_buf.wf(bm, b),
            next.send_buf == self.send_buf,
            next.pending_data@ == self.pending_data@,
            next.state == STREAM_OPENED || next.state == STREAM_CLOSED || next.state
                == STREAM_HALF_CLOSED,
        ensures
            next.wf(bm, b),
            self.evolves(bm, a, next, b),
            next.send_buf.content(b) == self.send_buf.content(a),
            next.incoming(bm, b) == self.incoming(bm, a),
            self.send_buf.sendable(a) ==> next.send_buf.sendable(b),
    {
        lemma_one_changed(
            bm,
            a,
            b,
            self.recv_buf,
            next.recv_buf,
            self.send_buf,
            self.pending_data@,
        );
        let ws = self.pending_data@;
        let own = linked::cells(self.recv_buf.slices());
        bm.lemma_keeps_wider(a, b, own, self.owned(bm, a));
        assert forall|o: int| #[trigger] next.owned(bm, b).contains(o) implies self.owned(
            bm,
            a,
        ).contains(o) || !bm.is_allocated(a, o) by {}
    }

    /// The send buffer changed and nothing else.
    pub proof fn lemma_send_changed(
        self,
        bm: BufferManager,
        a: Seq<u8>,
        next: Self,
        b: Seq<u8>,
    )
        requires
            self.wf(bm, a),
            self.send_buf.evolves(bm, a, next.send_buf, b),
            next.send_buf.wf(bm, b),
            next.recv_buf == self.recv_buf,
            next.pending_data@ == self.pending_data@,
            next.state == STREAM_OPENED || next.state == STREAM_CLOSED || next.state
                == STREAM_HALF_CLOSED,
        ensures
            next.wf(bm, b),
            self.evolves(bm, a, next, b),
            next.recv_buf.content(b) == self.recv_buf.content(a),
            next.incoming(bm, b) == self.incoming(bm, a),
    {
        lemma_one_changed(
            bm,
            a,
            b,
            self.send_buf,
            next.send_buf,
            self.recv_buf,
            self.pending_data@,
        );
        let own = linked::cells(self.send_buf.slices());
        bm.lemma_keeps_wider(a, b, own, self.owned(bm, a));
        assert forall|o: int| #[trigger] next.owned(bm, b).contains(o) implies self.owned(
            bm,
            a,
        ).contains(o) || !bm.is_allocated(a, o) by {}
    }

    /// The receive buffer gave up some of its buffers and nothing else changed.
    pub proof fn lemma_recv_shrank(
        self,
        bm: BufferManager,
        a: Seq<u8>,
        next: Self,
        b: Seq<u8>,
        own: Set<int>,
    )
        requires
            self.wf(bm, a),
            own.subset_of(held(self.recv_buf)),
            bm.keeps(a, b, own),
            next.recv_buf.wf(bm, b),
            held(next.recv_buf).subset_of(held(self.recv_buf)),
            forall|o: int| #[trigger]
                bm.is_allocated(b, o) && !held(next.recv_buf).contains(o) ==> bm.is_allocated(a, o)
                    && !held(self.recv_buf).contains(o),
            next.send_buf == self.send_buf,
            next.pending_data@ == self.pending_data@,
            next.state == self.state,
        ensures
            next.wf(bm, b),
            self.evolves(bm, a, next, b),
            next.send_buf.content(b) == self.send_buf.content(a),
            next.incoming(bm, b) == self.incoming(bm, a),
            self.send_buf.sendable(a) ==> next.send_buf.sendable(b),
    {
        let ws = self.pending_data@;
        assert forall|o: int| own.contains(o) implies !held(self.send_buf).contains(o) by {
            assert(held(self.recv_buf).contains(o));
        }
        assert(linked::cells(self.send_buf.slices()).disjoint(own));
        assert(linked::cells(self.send_buf.pins().retired()).disjoint(own));
        pending::lemma_buffer_kept(bm, a, b, own, self.send_buf);
        if self.send_buf.sendable(a) {
            self.send_buf.lemma_sendable_kept(bm, a, b, own);
        }
        assert forall|i: int| 0 <= i < ws.len() implies (#[trigger] ws[i]).taken(bm, a).disjoint(
            own,
        ) by {
            assert(ws[i].taken(bm, a).disjoint(held(self.recv_buf)));
        }
        pending::lemma_pending_kept(bm, a, b, own, ws);
        lemma_held_pending_same(bm, a, b, ws);
        assert forall|i: int| 0 <= i < ws.len() implies (#[trigger] ws[i]).taken(bm, b).disjoint(
            held(next.recv_buf),
        ) && ws[i].taken(bm, b).disjoint(held(self.send_buf)) by {
            assert(ws[i].taken(bm, a).disjoint(held(self.recv_buf)));
            assert(ws[i].taken(bm, a).disjoint(held(self.send_buf)));
        }
        bm.lemma_keeps_wider(a, b, own, self.owned(bm, a));
        assert forall|o: int| #[trigger] next.owned(bm, b).contains(o) implies self.owned(
            bm,
            a,
        ).contains(o) by {}
    }

    pub proof fn lemma_evolves_but_trans(
        self,
        bm: BufferManager,
        a: Seq<u8>,
        mid: Self,
        b: Seq<u8>,
        next: Self,
        c: Seq<u8>,
        g: Set<int>,
        h: Set<int>,
    )
        requires
            self.evolves_but(bm, a, mid, b, g),
            mid.evolves_but(bm, b, next, c, h),
        ensures
            self.evolves_but(bm, a, next, c, g.union(h)),
    {
        let s0 = self.owned(bm, a);
        let s1 = mid.owned(bm, b);
        bm.lemma_keeps_trans(a, b, c, s0, s1);
        assert forall|o: int| #[trigger] next.owned(bm, c).contains(o) implies s0.contains(o)
            || !bm.is_allocated(a, o) by {
            if !s1.contains(o) {
                assert(!bm.is_allocated(b, o));
                reveal(BufferManager::keeps);
            }
        }
    }

    pub proof fn lemma_evolves_trans(
        self,
        bm: BufferManager,
        a: Seq<u8>,
        mid: Self,
        b: Seq<u8>,
        next: Self,
        c: Seq<u8>,
    )
        requires
            self.evolves(bm, a, mid, b),
            mid.evolves(bm, b, next, c),
        ensures
            self.evolves(bm, a, next, c),
    {
        self.lemma_evolves_but_trans(bm, a, mid, b, next, c, Set::empty(), Set::empty());
        assert(Set::<int>::empty().union(Set::empty()) =~= Set::empty());
    }

    pub proof fn lemma_evolves_refl(self, bm: BufferManager, a: Seq<u8>)
        ensures
            self.evolves(bm, a, self, a),
    {
        reveal(BufferManager::keeps);
    }

    /// The first piece of the pending data was taken up by the receive buffer.
    proof fn lemma_took(self, bm: BufferManager, a: Seq<u8>, next: Self, b: Seq<u8>)
        requires
            self.wf(bm, a),
            self.pending_data@.len() > 0,
            next.pending_data@ == self.pending_data@.skip(1),
            next.send_buf == self.send_buf,
            next.state == self.state,
            next.recv_buf.wf(bm, b),
            next.recv_buf.pins() == self.recv_buf.pins(),
            bm.keeps(
                a,
                b,
                linked::cells(self.recv_buf.slices()).union(self.pending_data@[0].taken(bm, a)),
            ),
            linked::cells(next.recv_buf.slices()).subset_of(
                linked::cells(self.recv_buf.slices()).union(self.pending_data@[0].taken(bm, a)),
            ),
            linked::cells(self.recv_buf.slices()).subset_of(
                linked::cells(next.recv_buf.slices()),
            ),
            forall|o: int| #[trigger]
                self.pending_data@[0].taken(bm, a).contains(o) ==> linked::cells(
                    next.recv_buf.slices(),
                ).contains(o) || !bm.is_allocated(b, o),
            forall|o: int| #[trigger] bm.is_allocated(b, o) ==> bm.is_allocated(a, o),
        ensures
            next.wf(bm, b),
            self.evolves(bm, a, next, b),
            next.send_buf.content(b) == self.send_buf.content(a),
            self.send_buf.sendable(a) ==> next.send_buf.sendable(b),
            next.incoming(bm, b) == pending::pending_bytes(bm, a, self.pending_data@.skip(1)),
            held_pending(bm, b, next.pending_data@).subset_of(
                held_pending(bm, a, self.pending_data@),
            ),
            pending::pending_slices(bm, b, next.pending_data@) == pending::pending_slices(
                bm,
                a,
                self.pending_data@.skip(1),
            ),
            pending::pending_unused(bm, b, next.pending_data@) == pending::pending_unused(
                bm,
                a,
                self.pending_data@.skip(1),
            ),
    {
        let ws = self.pending_data@;
        let rest = ws.skip(1);
        let w0 = ws[0].taken(bm, a);
        let own = linked::cells(self.recv_buf.slices()).union(w0);
        pending::lemma_pending_skip(bm, a, ws);
        assert(pending::pending_apart(bm, a, ws, held(self.recv_buf)));
        assert(pending::pending_apart(bm, a, ws, held(self.send_buf)));
        assert forall|i: int| 0 <= i < rest.len() implies (#[trigger] rest[i]).taken(
            bm,
            a,
        ).disjoint(own) by {
            assert(rest[i].taken(bm, a).disjoint(w0));
            assert(rest[i].taken(bm, a).disjoint(held(self.recv_buf)));
        }
        pending::lemma_pending_kept(bm, a, b, own, rest);
        lemma_held_disjoint(self.recv_buf, self.send_buf);
        assert(w0.disjoint(held(self.send_buf)));
        assert forall|o: int| own.contains(o) implies !held(self.send_buf).contains(o) by {
            if linked::cells(self.recv_buf.slices()).contains(o) {
                assert(held(self.recv_buf).contains(o));
            }
        }
        assert(linked::cells(self.send_buf.slices()).disjoint(own));
        assert(linked::cells(self.send_buf.pins().retired()).disjoint(own));
        pending::lemma_buffer_kept(bm, a, b, own, self.send_buf);
        if self.send_buf.sendable(a) {
            self.send_buf.lemma_sendable_kept(bm, a, b, own);
        }
        assert(held(next.recv_buf).subset_of(held(self.recv_buf).union(w0)));
        assert forall|i: int| 0 <= i < rest.len() implies (#[trigger] rest[i]).taken(
            bm,
            b,
        ).disjoint(held(next.recv_buf)) && rest[i].taken(bm, b).disjoint(held(self.send_buf)) by {
            assert(rest[i].taken(bm, a).disjoint(w0));
            assert(rest[i].taken(bm, a).disjoint(held(self.recv_buf)));
            assert(rest[i].taken(bm, a).disjoint(held(self.send_buf)));
        }

        assert forall|o: int| held_pending(bm, b, rest).contains(o) implies held_pending(
            bm,
            a,
            ws,
        ).contains(o) by {
            let i = choose|i: int|
                0 <= i < rest.len() && (#[trigger] rest[i]).taken(bm, b).contains(o);
            assert(rest[i].taken(bm, a).contains(o));
            assert(ws[i + 1].taken(bm, a).contains(o));
        }
        assert(own.subset_of(self.owned(bm, a))) by {
            assert forall|o: int| own.contains(o) implies self.owned(bm, a).contains(o) by {
                if w0.contains(o) {
                    assert(ws[0].taken(bm, a).contains(o));
                    assert(held_pending(bm, a, ws).contains(o));
                }
            }
        }
        bm.lemma_keeps_wider(a, b, own, self.owned(bm, a));
        assert forall|o: int| #[trigger] next.owned(bm, b).contains(o) implies self.owned(
            bm,
            a,
        ).contains(o) by {
            if held_pending(bm, b, rest).contains(o) {
                let i = choose|i: int|
                    0 <= i < rest.len() && (#[trigger] rest[i]).taken(bm, b).contains(o);
                assert(rest[i].taken(bm, a).contains(o));
                assert(ws[i + 1].taken(bm, a).contains(o));
            } else if held(next.recv_buf).contains(o) && !held(self.recv_buf).contains(o) {
                assert(ws[0].taken(bm, a).contains(o));
            }
        }
        assert forall|o: int| #[trigger] bm.is_allocated(b, o) && !next.owned(bm, b).contains(
            o,
        ) implies bm.is_allocated(a, o) && !self.owned(bm, a).contains(o) by {
            if held_pending(bm, a, ws).contains(o) {
                let i = choose|i: int|
                    0 <= i < ws.len() && (#[trigger] ws[i]).taken(bm, a).contains(o);
                if i > 0 {
                    assert(rest[i - 1].taken(bm, b).contains(o));
                }
            }
        }
    }

    /// On the way from `self` in `a` to `next` in `b` the receive buffer took over what had come in.
    /// The bytes of its slices stayed, and no buffer in use changed but its own and those of the
    /// data.
    pub open spec fn took_up(self, bm: BufferManager, a: Seq<u8>, next: Self, b: Seq<u8>) -> bool {
        &&& self.recv_buf.took_over(
            bm,
            a,
            next.recv_buf,
            b,
            pending::pending_slices(bm, a, self.pending_data@),
            pending::pending_unused(bm, a, self.pending_data@),
        )
        &&& self.recv_buf.same_bytes(a, b)
        &&& bm.keeps(
            a,
            b,
            linked::cells(self.recv_buf.slices()).union(held_pending(bm, a, self.pending_data@)),
        )
    }

    /// Whether what came in can be taken up: its bytes and those to be read can be counted.
    pub fn can_take_up(&self, bm: &BufferManager, mem: &[u8]) -> (r: bool)
        requires
            self.wf(*bm, mem@),
        ensures
            r == (self.recv_buf.spec_len() + self.incoming(*bm, mem@).len() <= usize::MAX),
    {
        let ghost m = mem@;
        let ghost ws = self.pending_data@;
        let mut room: usize = usize::MAX - self.recv_buf.len();
        let count: usize = self.pending_data.len();
        let mut i: usize = 0;
        assert(ws.skip(0) =~= ws);
        while i < count
            invariant
                m == mem@,
                self.wf(*bm, m),
                ws == self.pending_data@,
                count == ws.len(),
                0 <= i <= count,
                (room - pending::pending_bytes(*bm, m, ws.skip(i as int)).len()) == usize::MAX
                    - self.recv_buf.spec_len() - self.incoming(*bm, m).len(),
            decreases count - i,
        {
            assert(ws[i as int].wf(*bm, m));
            assert(ws.skip(i as int)[0] == ws[i as int]);
            assert(ws.skip(i as int).skip(1) =~= ws.skip(i + 1));
            match self.pending_data[i].len_within(bm, mem, room) {
                Some(n) => {
                    room = room - n;
                },
                None => {
                    return false;
                },
            }
            i = i + 1;
        }
        assert(ws.skip(count as int).len() == 0);
        true
    }

    /// Takes up what came in. A link that leaves the region ends the data that it is in: what came
    /// before it is kept, and the data behind is taken up as well.
    pub fn move_pending_data(&mut self, bm: &BufferManager, mem: &mut [u8], stats: &mut Stats)
        requires
            old(self).wf(*bm, old(mem)@),
            old(self).recv_buf.spec_len() + old(self).incoming(*bm, old(mem)@).len() <= usize::MAX,
        ensures
            final(self).wf(*bm, final(mem)@),
            final(mem)@.len() == old(mem)@.len(),
            old(self).evolves(*bm, old(mem)@, *final(self), final(mem)@),
            final(self).recv_buf.content(final(mem)@) == old(self).recv_buf.content(old(mem)@)
                + old(self).incoming(*bm, old(mem)@),
            final(self).pending_data@.len() == 0,
            bm.in_balance(old(mem)@) ==> bm.in_balance(final(mem)@),
            final(self).in_fallback_state == (old(self).in_fallback_state || pending::has_fallback(
                old(self).pending_data@,
            )),
            old(self).took_up(*bm, old(mem)@, *final(self), final(mem)@),
            final(self).id == old(self).id,
            final(self).session_id == old(self).session_id,
            final(self).state == old(self).state,
            final(self).send_buf == old(self).send_buf,
            final(self).send_buf.content(final(mem)@) == old(self).send_buf.content(old(mem)@),
            old(self).send_buf.sendable(old(mem)@) ==> final(self).send_buf.sendable(final(mem)@),
            *final(stats) == (Stats {
                in_flow_bytes: stats::wrap_add(
                    old(stats).in_flow_bytes,
                    old(self).incoming(*bm, old(mem)@).len() as u64,
                ),
                ..*old(stats)
            }),
    {
        let ghost own = linked::cells(self.recv_buf.slices()).union(
            held_pending(*bm, mem@, self.pending_data@),
        );
        proof {
            reveal(BufferManager::keeps);
        }
        if self.pending_data.len() == 0 {
            proof {
                self.lemma_evolves_refl(*bm, mem@);
                assert(self.recv_buf.content(mem@) + Seq::<u8>::empty()
                    =~= self.recv_buf.content(mem@));
                assert(self.recv_buf.slices() + Seq::<BufferSlice>::empty()
                    =~= self.recv_buf.slices());
            }
            return;
        }
        let ghost s0 = *self;
        let ghost m0 = mem@;
        let ghost ws = self.pending_data@;
        let ghost mut ss: Seq<BufferSlice> = Seq::empty();
        let ghost mut unused: Seq<BufferSlice> = Seq::empty();
        let pre_len: usize = self.recv_buf.len();
        proof {
            self.lemma_evolves_refl(*bm, mem@);
            assert(self.recv_buf.slices() + ss =~= self.recv_buf.slices());
            assert(ss + pending::pending_slices(*bm, m0, ws) =~= pending::pending_slices(
                *bm,
                m0,
                ws,
            ));
            assert(unused + pending::pending_unused(*bm, m0, ws) =~= pending::pending_unused(
                *bm,
                m0,
                ws,
            ));
        }
        while self.pending_data.len() > 0
            invariant
                self.wf(*bm, mem@),
                mem@.len() == m0.len(),
                s0.evolves(*bm, m0, *self, mem@),
                self.recv_buf.content(mem@) + self.incoming(*bm, mem@) == s0.recv_buf.content(m0)
                    + s0.incoming(*bm, m0),
                s0.recv_buf.content(m0).len() + s0.incoming(*bm, m0).len() <= usize::MAX,
                (self.in_fallback_state || pending::has_fallback(self.pending_data@)) == (
                s0.in_fallback_state || pending::has_fallback(s0.pending_data@)),
                s0.recv_buf.took_over(*bm, m0, self.recv_buf, mem@, ss, unused),
                s0.recv_buf.same_bytes(m0, mem@),
                bm.in_balance(m0) ==> bm.in_balance(mem@),
                bm.keeps(m0, mem@, own),
                linked::cells(self.recv_buf.slices()).subset_of(own),
                held_pending(*bm, mem@, self.pending_data@).subset_of(own),
                ss + pending::pending_slices(*bm, mem@, self.pending_data@)
                    == pending::pending_slices(*bm, m0, s0.pending_data@),
                unused + pending::pending_unused(*bm, mem@, self.pending_data@)
                    == pending::pending_unused(*bm, m0, s0.pending_data@),
                self.id == s0.id,
                self.session_id == s0.session_id,
                self.state == s0.state,
                self.send_buf == s0.send_buf,
                self.send_buf.content(mem@) == s0.send_buf.content(m0),
                s0.send_buf.sendable(m0) ==> self.send_buf.sendable(mem@),
            decreases self.pending_data@.len(),
        {
            let ghost s1 = *self;
            let ghost m1 = mem@;
            assert((self.recv_buf.content(mem@) + self.incoming(*bm, mem@)).len() == (
            s0.recv_buf.content(m0) + s0.incoming(*bm, m0)).len());
            self.take_up_first(bm, mem);
            proof {
                s0.lemma_evolves_trans(*bm, m0, s1, m1, *self, mem@);
                let w = s1.pending_data@[0];
                let x = w.slices(*bm, m1);
                let y = w.unused(*bm, m1);
                let part = linked::cells(s1.recv_buf.slices()).union(w.taken(*bm, m1));
                assert forall|o: int| part.contains(o) implies own.contains(o) by {
                    if w.taken(*bm, m1).contains(o) {
                        assert(s1.pending_data@[0].taken(*bm, m1).contains(o));
                        assert(held_pending(*bm, m1, s1.pending_data@).contains(o));
                    }
                }
                bm.lemma_keeps_trans(m0, m1, mem@, own, part);
                assert forall|i: int| 0 <= i < s0.recv_buf.slices().len() implies (
                #[trigger] s0.recv_buf.slices()[i]).bytes(mem@) == s0.recv_buf.slices()[i].bytes(
                    m0,
                ) by {
                    assert(s1.recv_buf.slices()[i] == s0.recv_buf.slices()[i]);
                    assert(s1.recv_buf.slices()[i].bytes(mem@) == s1.recv_buf.slices()[i].bytes(
                        m1,
                    ));
                }
                s0.recv_buf.lemma_took_over_trans(
                    *bm,
                    m0,
                    s1.recv_buf,
                    m1,
                    self.recv_buf,
                    mem@,
                    (ss, unused),
                    (x, y),
                );
                let rest = pending::pending_slices(*bm, mem@, self.pending_data@);
                let unused_rest = pending::pending_unused(*bm, mem@, self.pending_data@);
                assert(ss + (x + rest) =~= ss + x + rest);
                assert(unused + (y + unused_rest) =~= unused + y + unused_rest);
                ss = ss + x;
                unused = unused + y;
            }
        }
        proof {
            assert(self.recv_buf.content(mem@) + Seq::<u8>::empty() =~= self.recv_buf.content(
                mem@,
            ));
            assert(s0.recv_buf.content(m0).len() == pre_len);
            assert(ss + Seq::<BufferSlice>::empty() =~= ss);
            assert(unused + Seq::<BufferSlice>::empty() =~= unused);
        }
        stats::count(&mut stats.in_flow_bytes, (self.recv_buf.len() - pre_len) as u64);
    }

    fn take_up_first(&mut self, bm: &BufferManager, mem: &mut [u8])
        requires
            old(self).wf(*bm, old(mem)@),
            old(self).pending_data@.len() > 0,
            old(self).recv_buf.spec_len() + old(self).incoming(*bm, old(mem)@).len() <= usize::MAX,
        ensures
            final(self).wf(*bm, final(mem)@),
            final(mem)@.len() == old(mem)@.len(),
            old(self).evolves(*bm, old(mem)@, *final(self), final(mem)@),
            final(self).pending_data@ == old(self).pending_data@.skip(1),
            final(self).recv_buf.content(final(mem)@) + final(self).incoming(*bm, final(mem)@)
                == old(self).recv_buf.content(old(mem)@) + old(self).incoming(*bm, old(mem)@),
            (final(self).in_fallback_state || pending::has_fallback(final(self).pending_data@))
                == (old(self).in_fallback_state || pending::has_fallback(
                old(self).pending_data@,
            )),
            old(self).recv_buf.took_over(
                *bm,
                old(mem)@,
                final(self).recv_buf,
                final(mem)@,
                old(self).pending_data@[0].slices(*bm, old(mem)@),
                old(self).pending_data@[0].unused(*bm, old(mem)@),
            ),
            old(self).recv_buf.same_bytes(old(mem)@, final(mem)@),
            bm.in_balance(old(mem)@) ==> bm.in_balance(final(mem)@),
            bm.keeps(
                old(mem)@,
                final(mem)@,
                linked::cells(old(self).recv_buf.slices()).union(
                    old(self).pending_data@[0].taken(*bm, old(mem)@),
                ),
            ),
            linked::cells(final(self).recv_buf.slices()).subset_of(
                linked::cells(old(self).recv_buf.slices()).union(
                    old(self).pending_data@[0].taken(*bm, old(mem)@),
                ),
            ),
            held_pending(*bm, final(mem)@, final(self).pending_data@).subset_of(
                held_pending(*bm, old(mem)@, old(self).pending_data@),
            ),
            pending::pending_slices(*bm, final(mem)@, final(self).pending_data@)
                == pending::pending_slices(*bm, old(mem)@, old(self).pending_data@.skip(1)),
            pending::pending_unused(*bm, final(mem)@, final(self).pending_data@)
                == pending::pending_unused(*bm, old(mem)@, old(self).pending_data@.skip(1)),
            final(self).id == old(self).id,
            final(self).session_id == old(self).session_id,
            final(self).state == old(self).state,
            final(self).send_buf == old(self).send_buf,
            final(self).send_buf.content(final(mem)@) == old(self).send_buf.content(old(mem)@),
            old(self).send_buf.sendable(old(mem)@) ==> final(self).send_buf.sendable(final(mem)@),
    {
        let ghost s0 = *self;
        let ghost m0 = mem@;
        let ghost ws = self.pending_data@;
        let ghost w = ws[0];
        let BufferSliceWrapper { fallback_slice, offset } = self.pending_data.remove(0);
        proof {
            assert(self.pending_data@ =~= ws.skip(1));
            pending::lemma_pending_skip(*bm, m0, ws);
            assert(pending::pending_apart(*bm, m0, ws, held(s0.recv_buf)));
            lemma_has_fallback_skip(ws);
            assert(bm.keeps(
                m0,
                m0,
                linked::cells(s0.recv_buf.slices()).union(w.taken(*bm, m0)),
            )) by {
                reveal(BufferManager::keeps);
            }
        }
        match fallback_slice {
            Some(s) => {
                self.recv_buf.append_buffer_slice(bm, mem, s);
                self.in_fallback_state = true;
                proof {
                    assert(s0.recv_buf.slices().push(s) =~= s0.recv_buf.slices() + seq![s]);
                    assert(!seq![s][0].is_from_shm);
                    linked::lemma_cells_push(s0.recv_buf.slices(), s);
                }
            },
            None => {
                if offset as u64 + 20 < mem.len() as u64 {
                    proof {
                        let q = bm.chain_from(m0, offset as int);
                        assert(w.taken(*bm, m0) == q.to_set());
                        assert(q.to_set().disjoint(held(s0.recv_buf)));
                        assert(q.to_set().disjoint(linked::cells(s0.recv_buf.slices())));
                        assert(q.to_set().disjoint(linked::cells(s0.recv_buf.pins().retired())));
                        assert(s0.incoming(*bm, m0).len() >= w.bytes(*bm, m0).len());
                    }
                    self.recv_buf.append_chain(bm, mem, offset);
                    proof {
                        let q = bm.chain_from(m0, offset as int);
                        assert forall|o: int| #[trigger] w.taken(*bm, m0).contains(
                            o,
                        ) implies linked::cells(self.recv_buf.slices()).contains(o)
                            || !bm.is_allocated(mem@, o) by {
                            let k = choose|k: int| 0 <= k < q.len() && q[k] == o;
                            assert(q[k] == o);
                        }
                    }
                } else {
                    proof {
                        assert(s0.recv_buf.content(m0) + Seq::<u8>::empty()
                            =~= s0.recv_buf.content(m0));
                        assert(s0.recv_buf.slices() + Seq::<BufferSlice>::empty()
                            =~= s0.recv_buf.slices());
                    }
                }
            },
        }
        proof {
            s0.lemma_took(*bm, m0, *self, mem@);
            assert(self.recv_buf.content(mem@) == s0.recv_buf.content(m0) + w.bytes(*bm, m0));
            assert(s0.recv_buf.content(m0) + w.bytes(*bm, m0) + self.incoming(*bm, mem@)
                =~= s0.recv_buf.content(m0) + (w.bytes(*bm, m0) + self.incoming(*bm, mem@)));
        }
    }
}

proof fn lemma_has_fallback_skip(ws: Seq<BufferSliceWrapper>)
    requires
        ws.len() > 0,
    ensures
        pending::has_fallback(ws) == (ws[0].fallback_slice is Some || pending::has_fallback(
            ws.skip(1),
        )),
{
    let t = ws.skip(1);
    if pending::has_fallback(ws) {
        let i = choose|i: int| 0 <= i < ws.len() && (#[trigger] ws[i]).fallback_slice is Some;
        if i > 0 {
            assert(t[i - 1].fallback_slice is Some);
        }
    }
    if pending::has_fallback(t) {
        let i = choose|i: int| 0 <= i < t.len() && (#[trigger] t[i]).fallback_slice is Some;
        assert(ws[i + 1].fallback_slice is Some);
    }
}

pub proof fn lemma_held_pending_same(
    bm: BufferManager,
    a: Seq<u8>,
    b: Seq<u8>,
    ws: Seq<BufferSliceWrapper>,
)
    requires
        forall|i: int|
            0 <= i < ws.len() ==> (#[trigger] ws[i]).taken(bm, b) == ws[i].taken(bm, a),
    ensures
        held_pending(bm, b, ws) == held_pending(bm, a, ws),
{
    assert forall|o: int| held_pending(bm, b, ws).contains(o) == held_pending(bm, a, ws).contains(
        o,
    ) by {
        if held_pending(bm, b, ws).contains(o) {
            let i = choose|i: int|
                0 <= i < ws.len() && (#[trigger] ws[i]).taken(bm, b).contains(o);
            assert(ws[i].taken(bm, a).contains(o));
        }
        if held_pending(bm, a, ws).contains(o) {
            let i = choose|i: int|
                0 <= i < ws.len() && (#[trigger] ws[i]).taken(bm, a).contains(o);
            assert(ws[i].taken(bm, b).contains(o));
        }
    }
    assert(held_pending(bm, b, ws) =~= held_pending(bm, a, ws));
}

/// Linked buffers share nothing if none of their parts do.
pub proof fn lemma_held_disjoint(x: LinkedBuffer, y: LinkedBuffer)
    ensures
        held(x).disjoint(held(y)) <==> {
            &&& linked::cells(x.slices()).disjoint(linked::cells(y.slices()))
            &&& linked::cells(x.slices()).disjoint(linked::cells(y.pins().retired()))
            &&& linked::cells(x.pins().retired()).disjoint(linked::cells(y.slices()))
            &&& linked::cells(x.pins().retired()).disjoint(linked::cells(y.pins().retired()))
        },
{
    let xs = linked::cells(x.slices());
    let xr = linked::cells(x.pins().retired());
    let ys = linked::cells(y.slices());
    let yr = linked::cells(y.pins().retired());
    if held(x).disjoint(held(y)) {
        assert forall|o: int| xs.contains(o) || xr.contains(o) implies !ys.contains(o)
            && !yr.contains(o) by {
            assert(held(x).contains(o));
            assert(!held(y).contains(o));
        }
    }
    if xs.disjoint(ys) && xs.disjoint(yr) && xr.disjoint(ys) && xr.disjoint(yr) {
        assert forall|o: int| held(x).contains(o) implies !held(y).contains(o) by {
            assert(xs.contains(o) || xr.contains(o));
        }
    }
}

/// Of two linked buffers and pending data that share nothing, one linked buffer changed.
proof fn lemma_one_changed(
    bm: BufferManager,
    a: Seq<u8>,
    b: Seq<u8>,
    x: LinkedBuffer,
    y: LinkedBuffer,
    other: LinkedBuffer,
    ws: Seq<BufferSliceWrapper>,
)
    requires
        x.wf(bm, a),
        x.evolves(bm, a, y, b),
        y.wf(bm, b),
        other.wf(bm, a),
        held(x).disjoint(held(other)),
        pending::pending_wf(bm, a, ws),
        pending::pending_apart(bm, a, ws, held(x)),
        pending::pending_apart(bm, a, ws, held(other)),
    ensures
        other.wf(bm, b),
        other.content(b) == other.content(a),
        other.sendable(a) ==> other.sendable(b),
        held(y).disjoint(held(other)),
        pending::pending_wf(bm, b, ws),
        pending::pending_apart(bm, b, ws, held(y)),
        pending::pending_apart(bm, b, ws, held(other)),
        pending::pending_bytes(bm, b, ws) == pending::pending_bytes(bm, a, ws),
        held_pending(bm, b, ws) == held_pending(bm, a, ws),
        forall|o: int| #[trigger]
            held(y).contains(o) ==> held(x).contains(o) || !bm.is_allocated(a, o),
        forall|o: int| #[trigger]
            bm.is_allocated(b, o) && !held(y).contains(o) ==> bm.is_allocated(a, o) && !held(
                x,
            ).contains(o),
{
    let own = linked::cells(x.slices());
    assert forall|o: int| #[trigger] bm.is_allocated(b, o) && !held(y).contains(
        o,
    ) implies bm.is_allocated(a, o) && !held(x).contains(o) by {
        assert(linked::is_elsewhere(bm, b, y.slices(), y.pins().retired(), o));
        assert(linked::is_elsewhere(bm, a, x.slices(), x.pins().retired(), o));
    }
    lemma_held_disjoint(x, other);
    x.law_buffers_do_not_disturb(bm, a, y, b, other);
    if other.sendable(a) {
        assert(linked::cells(other.slices()).disjoint(own));
        other.lemma_sendable_kept(bm, a, b, own);
    }
    assert forall|i: int| 0 <= i < ws.len() implies (#[trigger] ws[i]).taken(bm, a).disjoint(
        own,
    ) by {
        assert(ws[i].taken(bm, a).disjoint(held(x)));
    }
    pending::lemma_pending_kept(bm, a, b, own, ws);
    lemma_held_pending_same(bm, a, b, ws);
    assert forall|i: int| 0 <= i < ws.len() implies (#[trigger] ws[i]).taken(bm, b).disjoint(
        held(y),
    ) && ws[i].taken(bm, b).disjoint(held(other)) by {
        let t = ws[i].taken(bm, a);
        assert(t.disjoint(held(x)));
        assert(t.disjoint(held(other)));
        assert forall|o: int| !(t.contains(o) && held(y).contains(o)) by {
            if t.contains(o) {
                let q = bm.chain_from(a, ws[i].offset as int);
                assert(q.to_set().contains(o));
                let k = choose|k: int| 0 <= k < q.len() && q[k] == o;
                assert(bm.is_allocated(a, q[k]));
            }
        }
    }
}

} // verus!
