//! The life of a stream: opening, closing and being used again.

use vstd::prelude::*;

use crate::buffer::linked;
use crate::buffer::linked::LinkedBuffer;
use crate::buffer::manager::BufferManager;
use crate::buffer::slice;
use crate::buffer::slice::BufferSlice;
use crate::error::Error;
use crate::stream::pending;
use crate::stream::pending::BufferSliceWrapper;
use crate::stream::state;
use crate::stream::state::{Stream, STREAM_CLOSED, STREAM_HALF_CLOSED, STREAM_OPENED};

verus! {

/// The free buffers after the chains of the data were put back, up to the first piece whose
/// position lies outside of the region.
pub open spec fn frees_after(
    bm: BufferManager,
    m: Seq<u8>,
    frees: Seq<Seq<int>>,
    ws: Seq<BufferSliceWrapper>,
) -> Seq<Seq<int>>
    decreases ws.len(),
{
    if ws.len() == 0 {
        frees
    } else if ws[0].fallback_slice is Some {
        frees_after(bm, m, frees, ws.skip(1))
    } else if !pending::inside(m, ws[0].offset) {
        frees
    } else {
        frees_after(
            bm,
            m,
            bm.put_back(frees, bm.chain_from(m, ws[0].offset as int)),
            ws.skip(1),
        )
    }
}

/// The buffers of the data behind the first piece whose position lies outside of the region.
pub open spec fn let_go(bm: BufferManager, m: Seq<u8>, ws: Seq<BufferSliceWrapper>) -> Set<int>
    decreases ws.len(),
{
    if ws.len() == 0 {
        Set::empty()
    } else if ws[0].fallback_slice is Some || pending::inside(m, ws[0].offset) {
        let_go(bm, m, ws.skip(1))
    } else {
        state::held_pending(bm, m, ws)
    }
}

impl Stream {
    /// A stream that was just opened.
    pub fn new(id: u32, session_id: usize) -> (r: Self)
        ensures
            r.id == id,
            r.session_id == session_id,
            r.state == STREAM_OPENED,
            !r.in_fallback_state,
            r.pending_data@.len() == 0,
            r.recv_buf.slices().len() == 0,
            r.recv_buf.pins().retired().len() == 0,
            r.recv_buf.spec_len() == 0,
            r.recv_buf.from_shm(),
            r.send_buf.slices().len() == 0,
            r.send_buf.pins().retired().len() == 0,
            r.send_buf.spec_len() == 0,
            r.send_buf.from_shm(),
            forall|m: Seq<u8>| #[trigger] r.send_buf.sendable(m),
            forall|bm: BufferManager, m: Seq<u8>| bm.wf(m) ==> #[trigger] r.wf(bm, m),
    {
        let r = Stream {
            id,
            session_id,
            recv_buf: LinkedBuffer::new(),
            send_buf: LinkedBuffer::new(),
            pending_data: Vec::new(),
            state: STREAM_OPENED,
            in_fallback_state: false,
        };
        assert forall|m: Seq<u8>| #[trigger] r.send_buf.sendable(m) by {
            r.send_buf.lemma_sendable_empty(m);
        }
        assert forall|bm: BufferManager, m: Seq<u8>| bm.wf(m) implies #[trigger] r.wf(bm, m) by {
            assert forall|o: int| !state::held(r.recv_buf).contains(o) by {}
        }
        r
    }

    pub fn stream_id(&self) -> (r: u32)
        ensures
            r == self.id,
    {
        self.id
    }

    pub fn session_id(&self) -> (r: usize)
        ensures
            r == self.session_id,
    {
        self.session_id
    }

    pub fn is_open(&self) -> (r: bool)
        ensures
            r == (self.state == STREAM_OPENED),
    {
        self.state == STREAM_OPENED
    }

    /// Whether data of the stream goes over the connection.
    pub fn fallback_state(&self) -> (r: bool)
        ensures
            r == self.in_fallback_state,
    {
        self.in_fallback_state
    }

    /// Whether `min_size` bytes can be read, given the bytes that were taken up.
    pub open spec fn read_ready(self, min_size: int) -> Result<bool, Error> {
        if self.state == STREAM_CLOSED {
            Err(Error::StreamClosed)
        } else if self.recv_buf.spec_len() >= min_size {
            Ok(true)
        } else if self.state == STREAM_HALF_CLOSED {
            Err(Error::EndOfStream)
        } else {
            Ok(false)
        }
    }

    /// Whether `min_size` bytes can be read, or will ever be.
    pub fn check_read_ready(&self, min_size: usize) -> (r: Result<bool, Error>)
        ensures
            r == self.read_ready(min_size as int),
    {
        if self.state == STREAM_CLOSED {
            return Err(Error::StreamClosed);
        }
        if self.recv_buf.len() >= min_size {
            return Ok(true);
        }
        if self.state == STREAM_HALF_CLOSED {
            return Err(Error::EndOfStream);
        }
        Ok(false)
    }

    /// Why a stream cannot be used again.
    pub open spec fn reset_error(self) -> Option<Error> {
        if self.state != STREAM_OPENED {
            Some(Error::StreamClosed)
        } else if self.recv_buf.spec_len() > 0 {
            Some(Error::StreamHasUnreadData(self.recv_buf.spec_len() as usize))
        } else if self.pending_data@.len() > 0 {
            Some(Error::StreamHasPendingData(self.pending_data@.len() as usize))
        } else {
            None
        }
    }

    /// Makes a stream that was read to the end ready to be used again.
    pub fn reset(&mut self) -> (r: Result<(), Error>)
        ensures
            match old(self).reset_error() {
                Some(e) => r == Err::<(), Error>(e) && *final(self) == *old(self),
                None => r is Ok && *final(self) == (Stream {
                    in_fallback_state: false,
                    ..*old(self)
                }),
            },
    {
        if self.state != STREAM_OPENED {
            return Err(Error::StreamClosed);
        }
        let unread_size: usize = self.recv_buf.len();
        if unread_size > 0 {
            return Err(Error::StreamHasUnreadData(unread_size));
        }
        let pending_data_len: usize = self.pending_data.len();
        if pending_data_len > 0 {
            return Err(Error::StreamHasPendingData(pending_data_len));
        }
        self.in_fallback_state = false;
        Ok(())
    }

    /// The peer sends nothing more. Tells whether those who wait for the stream have to know.
    pub fn half_close(&mut self) -> (r: bool)
        ensures
            r == (old(self).state == STREAM_OPENED),
            *final(self) == (Stream {
                state: if r {
                    STREAM_HALF_CLOSED
                } else {
                    old(self).state
                },
                ..*old(self)
            }),
    {
        if self.state == STREAM_OPENED {
            self.state = STREAM_HALF_CLOSED;
            return true;
        }
        false
    }

    /// The one slice that is left of what was read can take the next write.
    pub open spec fn can_reuse(self) -> bool {
        &&& self.recv_buf.spec_len() == 0
        &&& self.recv_buf.slices().len() == 1
        &&& self.recv_buf.slices()[0].is_from_shm
        &&& !self.recv_buf.pins().front_pinned()
    }

    /// On the way from `self` in `a` to `next` in `b` the slice that was left of what was read was
    /// kept for the next write, or else given up once all was read.
    pub open spec fn reused(self, bm: BufferManager, a: Seq<u8>, next: Self, b: Seq<u8>) -> bool {
        if self.can_reuse() {
            &&& next.recv_buf == self.send_buf
            &&& next.recv_buf.content(b) == self.send_buf.content(a)
            &&& self.recv_buf.kept_for_writing(bm, a, next.send_buf, b)
            &&& self.recv_buf.slices()[0].start == 0 ==> next.send_buf.sendable(b)
        } else {
            &&& next.send_buf == self.send_buf
            &&& self.send_buf.sendable(a) ==> next.send_buf.sendable(b)
            &&& next.send_buf.content(b) == self.send_buf.content(a)
            &&& next.recv_buf.content(b) == self.recv_buf.content(a)
            &&& if self.recv_buf.spec_len() == 0 && self.recv_buf.slices().len() == 1 {
                self.recv_buf.lost_front(bm, a, next.recv_buf, b)
            } else {
                next.recv_buf == self.recv_buf && b == a
            }
        }
    }

    /// Gives up what was read, and keeps the one slice that is left of it for the next write.
    pub fn release_read_and_reuse(&mut self, bm: &BufferManager, mem: &mut [u8])
        requires
            old(self).wf(*bm, old(mem)@),
        ensures
            final(self).wf(*bm, final(mem)@),
            final(mem)@.len() == old(mem)@.len(),
            old(self).evolves(*bm, old(mem)@, *final(self), final(mem)@),
            final(self).id == old(self).id,
            final(self).session_id == old(self).session_id,
            final(self).state == old(self).state,
            final(self).in_fallback_state == old(self).in_fallback_state,
            final(self).pending_data == old(self).pending_data,
            final(self).incoming(*bm, final(mem)@) == old(self).incoming(*bm, old(mem)@),
            old(self).reused(*bm, old(mem)@, *final(self), final(mem)@),
    {
        let ghost s0 = *self;
        let ghost m0 = mem@;
        self.recv_buf.release_previous_read_and_reserve(bm, mem);
        proof {
            s0.lemma_recv_changed(*bm, m0, *self, mem@);
        }
        let ghost s1 = *self;
        if self.recv_buf.is_empty() && self.recv_buf.slice_list().size() == 1 {
            std::mem::swap(&mut self.recv_buf, &mut self.send_buf);
            proof {
                assert(s0.can_reuse());
                reveal(LinkedBuffer::sendable);
                assert(self.owned(*bm, mem@) =~= s1.owned(*bm, mem@));
                assert(state::held(self.recv_buf).disjoint(state::held(self.send_buf)));
            }
        }
    }

    /// Gives back what came in and was not taken up. A link that leaves the region ends the data
    /// that it is in: what came before it is given back, and so is the data behind. Data that
    /// starts at a position outside of the region ends it all, and what is behind is let go.
    pub fn clean_pending_data(&mut self, bm: &BufferManager, mem: &mut [u8])
        requires
            old(self).wf(*bm, old(mem)@),
        ensures
            final(self).wf(*bm, final(mem)@),
            final(mem)@.len() == old(mem)@.len(),
            old(self).evolves_but(
                *bm,
                old(mem)@,
                *final(self),
                final(mem)@,
                let_go(*bm, old(mem)@, old(self).pending_data@),
            ),
            bm.frees(final(mem)@) == frees_after(
                *bm,
                old(mem)@,
                bm.frees(old(mem)@),
                old(self).pending_data@,
            ),
            bm.keeps(
                old(mem)@,
                final(mem)@,
                state::held_pending(*bm, old(mem)@, old(self).pending_data@),
            ),
            bm.in_balance(old(mem)@) ==> bm.in_balance(final(mem)@),
            final(self).pending_data@.len() == 0,
            final(self).recv_buf == old(self).recv_buf,
            final(self).recv_buf.content(final(mem)@) == old(self).recv_buf.content(old(mem)@),
            final(self).send_buf == old(self).send_buf,
            final(self).send_buf.content(final(mem)@) == old(self).send_buf.content(old(mem)@),
            old(self).send_buf.sendable(old(mem)@) ==> final(self).send_buf.sendable(final(mem)@),
            final(self).id == old(self).id,
            final(self).session_id == old(self).session_id,
            final(self).state == old(self).state,
            final(self).in_fallback_state == old(self).in_fallback_state,
    {
        let ghost s0 = *self;
        let ghost m0 = mem@;
        let ghost all = self.pending_data@;
        let ghost goal = frees_after(*bm, m0, bm.frees(m0), all);
        let ghost gone = let_go(*bm, m0, all);
        let ghost own = state::held_pending(*bm, m0, all);
        proof {
            self.lemma_evolves_refl(*bm, mem@);
            assert(bm.keeps(m0, m0, own)) by {
                reveal(BufferManager::keeps);
            }
        }
        while self.pending_data.len() > 0
            invariant
                self.wf(*bm, mem@),
                mem@.len() == m0.len(),
                s0.evolves_but(*bm, m0, *self, mem@, gone),
                self.pending_data@.len() > 0 ==> s0.evolves(*bm, m0, *self, mem@),
                let_go(*bm, mem@, self.pending_data@) == gone || self.pending_data@.len() == 0,
                frees_after(*bm, mem@, bm.frees(mem@), self.pending_data@) == goal,
                bm.in_balance(m0) ==> bm.in_balance(mem@),
                own == state::held_pending(*bm, m0, s0.pending_data@),
                bm.keeps(m0, mem@, own),
                state::held_pending(*bm, mem@, self.pending_data@).subset_of(own),
                self.recv_buf == s0.recv_buf,
                self.recv_buf.content(mem@) == s0.recv_buf.content(m0),
                self.send_buf == s0.send_buf,
                self.send_buf.content(mem@) == s0.send_buf.content(m0),
                s0.send_buf.sendable(m0) ==> self.send_buf.sendable(mem@),
                self.id == s0.id,
                self.session_id == s0.session_id,
                self.state == s0.state,
                self.in_fallback_state == s0.in_fallback_state,
            decreases self.pending_data@.len(),
        {
            let ghost s1 = *self;
            let ghost m1 = mem@;
            if self.give_back_first(bm, mem) {
                proof {
                    bm.lemma_keeps_trans(
                        m0,
                        m1,
                        mem@,
                        own,
                        state::held_pending(*bm, m1, s1.pending_data@),
                    );
                    s0.lemma_evolves_trans(*bm, m0, s1, m1, *self, mem@);
                }
            } else {
                let ghost s2 = *self;
                self.pending_data.clear();
                proof {
                    Self::lemma_dropped(*bm, s2, *self, mem@);
                    s0.lemma_evolves_but_trans(
                        *bm,
                        m0,
                        s1,
                        m1,
                        *self,
                        mem@,
                        Set::empty(),
                        gone,
                    );
                    assert(Set::<int>::empty().union(gone) =~= gone);
                }
            }
        }
    }

    /// What was let go is no longer held.
    proof fn lemma_dropped(bm: BufferManager, a: Self, b: Self, m: Seq<u8>)
        requires
            a.wf(bm, m),
            b.pending_data@.len() == 0,
            b.recv_buf == a.recv_buf,
            b.send_buf == a.send_buf,
            b.state == a.state,
        ensures
            b.wf(bm, m),
            a.evolves_but(bm, m, b, m, state::held_pending(bm, m, a.pending_data@)),
    {
        assert(bm.keeps(m, m, a.owned(bm, m))) by {
            reveal(BufferManager::keeps);
        }
        assert forall|o: int| !state::held_pending(bm, m, b.pending_data@).contains(o) by {}
    }

    /// Gives back the first piece of what came in; tells whether there was anything to give back.
    fn give_back_first(&mut self, bm: &BufferManager, mem: &mut [u8]) -> (r: bool)
        requires
            old(self).wf(*bm, old(mem)@),
            old(self).pending_data@.len() > 0,
        ensures
            final(self).wf(*bm, final(mem)@),
            final(mem)@.len() == old(mem)@.len(),
            old(self).evolves(*bm, old(mem)@, *final(self), final(mem)@),
            r == (old(self).pending_data@[0].fallback_slice is Some || pending::inside(
                old(mem)@,
                old(self).pending_data@[0].offset,
            )),
            r ==> final(self).pending_data@ == old(self).pending_data@.skip(1),
            !r ==> *final(self) == *old(self) && final(mem)@ == old(mem)@,
            frees_after(*bm, final(mem)@, bm.frees(final(mem)@), final(self).pending_data@)
                == frees_after(*bm, old(mem)@, bm.frees(old(mem)@), old(self).pending_data@),
            bm.in_balance(old(mem)@) ==> bm.in_balance(final(mem)@),
            bm.keeps(
                old(mem)@,
                final(mem)@,
                state::held_pending(*bm, old(mem)@, old(self).pending_data@),
            ),
            state::held_pending(*bm, final(mem)@, final(self).pending_data@).subset_of(
                state::held_pending(*bm, old(mem)@, old(self).pending_data@),
            ),
            let_go(*bm, final(mem)@, final(self).pending_data@) == let_go(
                *bm,
                old(mem)@,
                old(self).pending_data@,
            ),
            final(self).recv_buf == old(self).recv_buf,
            final(self).recv_buf.content(final(mem)@) == old(self).recv_buf.content(old(mem)@),
            final(self).send_buf == old(self).send_buf,
            final(self).send_buf.content(final(mem)@) == old(self).send_buf.content(old(mem)@),
            old(self).send_buf.sendable(old(mem)@) ==> final(self).send_buf.sendable(final(mem)@),
            final(self).id == old(self).id,
            final(self).session_id == old(self).session_id,
            final(self).state == old(self).state,
            final(self).in_fallback_state == old(self).in_fallback_state,
    {
        let ghost s0 = *self;
        let ghost m0 = mem@;
        let ghost ws = self.pending_data@;
        let ghost w = ws[0];
        let offset: u32 = self.pending_data[0].offset;
        let on_heap: bool = self.pending_data[0].fallback_slice.is_some();
        if !on_heap && offset as u64 + 20 >= mem.len() as u64 {
            proof {
                self.lemma_evolves_refl(*bm, mem@);
                reveal(BufferManager::keeps);
            }
            return false;
        }
        let _first = self.pending_data.remove(0);
        proof {
            assert(self.pending_data@ =~= ws.skip(1));
            pending::lemma_pending_skip(*bm, m0, ws);
            assert(pending::pending_apart(*bm, m0, ws, state::held(s0.recv_buf)));
            assert(pending::pending_apart(*bm, m0, ws, state::held(s0.send_buf)));
            assert(bm.keeps(m0, m0, w.taken(*bm, m0))) by {
                reveal(BufferManager::keeps);
            }
        }
        if !on_heap {
            let ghost q = bm.chain_from(m0, offset as int);
            proof {
                let o = offset as int;
                assert(bm.is_allocated(m0, q[0]));
                assert(BufferManager::readable(m0, q[0]));
                let li = choose|j: int| bm.in_use(m0, j, o);
                bm.lemma_in_use(m0, li, o);
            }
            match bm.read_buffer_slice(mem, offset) {
                Ok(s) => {
                    assert(bm.owns(m0, s));
                    assert(bm.is_chain(m0, q) && q[0] == s.offset_in_shm);
                    bm.recycle_buffers(mem, s);
                    proof {
                        assert forall|o: int| #[trigger]
                            w.taken(*bm, m0).contains(o) implies !bm.is_allocated(mem@, o) by {
                            let k = choose|k: int| 0 <= k < q.len() && q[k] == o;
                            assert(q[k] == o);
                        }
                    }
                },
                Err(_) => {
                    assert(false);
                },
            }
        }
        proof {
            Self::lemma_gave_back(*bm, s0, m0, *self, mem@);
            Self::lemma_frees_after_same(
                *bm,
                m0,
                mem@,
                w.taken(*bm, m0),
                bm.frees(mem@),
                ws.skip(1),
            );
            Self::lemma_let_go_same(*bm, m0, mem@, w.taken(*bm, m0), ws.skip(1));
            pending::lemma_pending_kept(*bm, m0, mem@, w.taken(*bm, m0), ws.skip(1));
            let own = state::held_pending(*bm, m0, ws);
            assert forall|o: int| w.taken(*bm, m0).contains(o) implies own.contains(o) by {
                assert(ws[0].taken(*bm, m0).contains(o));
            }
            bm.lemma_keeps_wider(m0, mem@, w.taken(*bm, m0), own);
            assert forall|o: int|
                state::held_pending(*bm, mem@, ws.skip(1)).contains(o) implies own.contains(o) by {
                let rest = ws.skip(1);
                let i = choose|i: int|
                    0 <= i < rest.len() && (#[trigger] rest[i]).taken(*bm, mem@).contains(o);
                assert(ws[i + 1].taken(*bm, m0).contains(o));
            }
        }
        true
    }

    /// The first piece of the pending data was given back.
    proof fn lemma_gave_back(bm: BufferManager, old: Self, a: Seq<u8>, new: Self, b: Seq<u8>)
        requires
            old.wf(bm, a),
            old.pending_data@.len() > 0,
            new.pending_data@ == old.pending_data@.skip(1),
            new.recv_buf == old.recv_buf,
            new.send_buf == old.send_buf,
            new.state == old.state,
            bm.wf(b),
            bm.keeps(a, b, old.pending_data@[0].taken(bm, a)),
            forall|o: int| #[trigger]
                old.pending_data@[0].taken(bm, a).contains(o) ==> !bm.is_allocated(b, o),
            forall|o: int| #[trigger] bm.is_allocated(b, o) ==> bm.is_allocated(a, o),
        ensures
            new.wf(bm, b),
            old.evolves(bm, a, new, b),
            new.recv_buf.content(b) == old.recv_buf.content(a),
            new.send_buf.content(b) == old.send_buf.content(a),
            old.send_buf.sendable(a) ==> new.send_buf.sendable(b),
            bm.keeps(a, b, old.pending_data@[0].taken(bm, a)),
            pending::pending_wf(bm, a, new.pending_data@),
            pending::pending_apart(
                bm,
                a,
                new.pending_data@,
                old.pending_data@[0].taken(bm, a),
            ),
    {
        let ws = old.pending_data@;
        let rest = ws.skip(1);
        let own = ws[0].taken(bm, a);
        pending::lemma_pending_skip(bm, a, ws);
        assert(pending::pending_apart(bm, a, ws, state::held(old.recv_buf)));
        assert(pending::pending_apart(bm, a, ws, state::held(old.send_buf)));
        pending::lemma_pending_kept(bm, a, b, own, rest);
        assert(own.disjoint(state::held(old.recv_buf)));
        assert(own.disjoint(state::held(old.send_buf)));
        assert forall|o: int| own.contains(o) implies !state::held(old.recv_buf).contains(o)
            && !state::held(old.send_buf).contains(o) by {}
        assert(linked::cells(old.recv_buf.slices()).disjoint(own));
        assert(linked::cells(old.recv_buf.pins().retired()).disjoint(own));
        assert(linked::cells(old.send_buf.slices()).disjoint(own));
        assert(linked::cells(old.send_buf.pins().retired()).disjoint(own));
        pending::lemma_buffer_kept(bm, a, b, own, old.recv_buf);
        pending::lemma_buffer_kept(bm, a, b, own, old.send_buf);
        if old.send_buf.sendable(a) {
            old.send_buf.lemma_sendable_kept(bm, a, b, own);
        }
        assert forall|i: int| 0 <= i < rest.len() implies (#[trigger] rest[i]).taken(
            bm,
            b,
        ).disjoint(state::held(old.recv_buf)) && rest[i].taken(bm, b).disjoint(
            state::held(old.send_buf),
        ) by {
            assert(rest[i].taken(bm, a).disjoint(state::held(old.recv_buf)));
            assert(rest[i].taken(bm, a).disjoint(state::held(old.send_buf)));
        }
        assert(own.subset_of(old.owned(bm, a))) by {
            assert forall|o: int| own.contains(o) implies old.owned(bm, a).contains(o) by {
                assert(ws[0].taken(bm, a).contains(o));
                assert(state::held_pending(bm, a, ws).contains(o));
            }
        }
        bm.lemma_keeps_wider(a, b, own, old.owned(bm, a));
        assert forall|o: int| #[trigger] new.owned(bm, b).contains(o) implies old.owned(
            bm,
            a,
        ).contains(o) by {
            if state::held_pending(bm, b, rest).contains(o) {
                let i = choose|i: int|
                    0 <= i < rest.len() && (#[trigger] rest[i]).taken(bm, b).contains(o);
                assert(rest[i].taken(bm, a).contains(o));
                assert(ws[i + 1].taken(bm, a).contains(o));
            }
        }
        assert forall|o: int| #[trigger] bm.is_allocated(b, o) && !new.owned(bm, b).contains(
            o,
        ) implies bm.is_allocated(a, o) && !old.owned(bm, a).contains(o) by {
            if state::held_pending(bm, a, ws).contains(o) {
                let i = choose|i: int|
                    0 <= i < ws.len() && (#[trigger] ws[i]).taken(bm, a).contains(o);
                if i > 0 {
                    assert(rest[i - 1].taken(bm, b).contains(o));
                }
            }
        }
    }

    /// Pieces of which no buffer changed are let go alike.
    proof fn lemma_let_go_same(
        bm: BufferManager,
        a: Seq<u8>,
        b: Seq<u8>,
        own: Set<int>,
        ws: Seq<BufferSliceWrapper>,
    )
        requires
            bm.wf(a),
            a.len() == b.len(),
            bm.keeps(a, b, own),
            pending::pending_wf(bm, a, ws),
            pending::pending_apart(bm, a, ws, own),
        ensures
            let_go(bm, b, ws) == let_go(bm, a, ws),
        decreases ws.len(),
    {
        if ws.len() > 0 {
            pending::lemma_pending_skip(bm, a, ws);
            assert(pending::pending_apart(bm, a, ws.skip(1), own));
            if ws[0].fallback_slice is Some || pending::inside(a, ws[0].offset) {
                Self::lemma_let_go_same(bm, a, b, own, ws.skip(1));
            } else {
                assert forall|i: int| 0 <= i < ws.len() implies (#[trigger] ws[i]).taken(bm, b)
                    == ws[i].taken(bm, a) by {
                    pending::lemma_piece_kept(bm, a, b, own, ws[i]);
                }
                state::lemma_held_pending_same(bm, a, b, ws);
            }
        }
    }

    /// Pieces of which no buffer changed go back to the same lists.
    proof fn lemma_frees_after_same(
        bm: BufferManager,
        a: Seq<u8>,
        b: Seq<u8>,
        own: Set<int>,
        frees: Seq<Seq<int>>,
        ws: Seq<BufferSliceWrapper>,
    )
        requires
            bm.wf(a),
            bm.keeps(a, b, own),
            pending::pending_wf(bm, a, ws),
            pending::pending_apart(bm, a, ws, own),
        ensures
            frees_after(bm, b, frees, ws) == frees_after(bm, a, frees, ws),
        decreases ws.len(),
    {
        if ws.len() > 0 {
            let rest = ws.skip(1);
            pending::lemma_pending_skip(bm, a, ws);
            assert(pending::pending_apart(bm, a, rest, own));
            pending::lemma_piece_kept(bm, a, b, own, ws[0]);
            if ws[0].fallback_slice is Some {
                Self::lemma_frees_after_same(bm, a, b, own, frees, rest);
            } else if ws[0].is_chain(a) {
                let q = bm.chain_from(a, ws[0].offset as int);
                assert forall|k: int| 0 <= k < q.len() implies !own.contains(#[trigger] q[k]) by {
                    assert(q.to_set().contains(q[k]));
                }
                bm.lemma_chain_kept(a, b, own, q);
                Self::lemma_frees_after_same(bm, a, b, own, bm.put_back(frees, q), rest);
            }
        }
    }
}

/// What the peer sent before it closed a stream can be read: as long as a stream is not closed on
/// this side, any number of bytes up to those that are unread can be asked for. The end of the
/// stream is reported only where fewer are left and the peer closed it.
pub proof fn law_unread_bytes_can_be_read(s: Stream, min_size: usize, r: Result<bool, Error>)
    requires
        call_ensures(Stream::check_read_ready, (&s, min_size), r),
    ensures
        s.state != STREAM_CLOSED && min_size <= s.recv_buf.spec_len() ==> r == Ok::<bool, Error>(
            true,
        ),
        r == Ok::<bool, Error>(true) ==> min_size <= s.recv_buf.spec_len(),
        r == Err::<bool, Error>(Error::EndOfStream) <==> s.state == STREAM_HALF_CLOSED && min_size
            > s.recv_buf.spec_len(),
        r == Err::<bool, Error>(Error::StreamClosed) <==> s.state == STREAM_CLOSED,
        r is Err ==> r->Err_0 is EndOfStream || r->Err_0 is StreamClosed,
{
}

/// That the peer closes a stream takes nothing away that could be read before.
pub proof fn law_close_of_the_peer_leaves_the_unread(
    s: &mut Stream,
    min_size: usize,
    before: Result<bool, Error>,
    told: bool,
    after: Result<bool, Error>,
)
    requires
        call_ensures(Stream::check_read_ready, (&*old(s), min_size), before),
        call_ensures(Stream::half_close, (s,), told),
        call_ensures(Stream::check_read_ready, (&*final(s), min_size), after),
    ensures
        before == Ok::<bool, Error>(true) ==> after == Ok::<bool, Error>(true),
        before == Ok::<bool, Error>(false) && old(s).state == STREAM_OPENED ==> after == Err::<
            bool,
            Error,
        >(Error::EndOfStream),
        before is Err ==> after == before,
        final(s).recv_buf == old(s).recv_buf,
        final(s).send_buf == old(s).send_buf,
        final(s).pending_data == old(s).pending_data,
        final(s).id == old(s).id,
        told <==> old(s).state == STREAM_OPENED,
        final(s).state != STREAM_OPENED,
{
}

/// A stream is used again if and only if it is open and nothing of it is unread: no byte that came
/// in is lost to the next use. Whoever is told otherwise learns what is left.
pub proof fn law_reset_loses_nothing(s: &mut Stream, r: Result<(), Error>)
    requires
        call_ensures(Stream::reset, (s,), r),
    ensures
        r is Ok <==> old(s).state == STREAM_OPENED && old(s).recv_buf.spec_len() == 0
            && old(s).pending_data@.len() == 0,
        r is Ok ==> !final(s).in_fallback_state,
        final(s).recv_buf == old(s).recv_buf,
        final(s).send_buf == old(s).send_buf,
        final(s).pending_data == old(s).pending_data,
        final(s).state == old(s).state,
        final(s).id == old(s).id,
        final(s).session_id == old(s).session_id,
        r is Err ==> final(s).in_fallback_state == old(s).in_fallback_state,
        r == Err::<(), Error>(Error::StreamClosed) <==> old(s).state != STREAM_OPENED,
        old(s).state == STREAM_OPENED && 0 < old(s).recv_buf.spec_len() <= usize::MAX ==> r == Err::<
            (),
            Error,
        >(Error::StreamHasUnreadData(old(s).recv_buf.spec_len() as usize)),
        old(s).state == STREAM_OPENED && old(s).recv_buf.spec_len() == 0
            && old(s).pending_data@.len() > 0 ==> r == Err::<(), Error>(
            Error::StreamHasPendingData(old(s).pending_data@.len() as usize),
        ),
{
}

/// To give up what was read loses nothing that is unread, that came in or that is to be sent: either
/// both buffers keep what they hold, or the one slice that is left of what was read, of which nothing
/// is unread and nobody has a pin, is empty and takes the next write.
pub proof fn law_read_slice_takes_the_next_write(
    s: &mut Stream,
    bm: &BufferManager,
    m: &mut [u8],
)
    requires
        call_ensures(Stream::release_read_and_reuse, (s, bm, m), ()),
    ensures
        ({
            let one = old(s).recv_buf.spec_len() == 0 && old(s).recv_buf.slices().len() == 1
                && old(s).recv_buf.slices()[0].is_from_shm
                && !old(s).recv_buf.pins().front_pinned();
            &&& one ==> {
                &&& final(s).send_buf.slices().len() == 1
                &&& final(s).send_buf.slices()[0].offset_in_shm
                    == old(s).recv_buf.slices()[0].offset_in_shm
                &&& final(s).send_buf.slices()[0].write_index == 0
                &&& final(s).send_buf.spec_len() == 0
                &&& final(s).recv_buf == old(s).send_buf
            }
            &&& !one ==> {
                &&& final(s).send_buf == old(s).send_buf
                &&& final(s).send_buf.content(final(m)@) == old(s).send_buf.content(old(m)@)
                &&& final(s).recv_buf.content(final(m)@) == old(s).recv_buf.content(old(m)@)
            }
        }),
        final(s).pending_data == old(s).pending_data,
        final(s).incoming(*bm, final(m)@) == old(s).incoming(*bm, old(m)@),
        final(s).state == old(s).state,
        final(s).id == old(s).id,
        final(s).in_fallback_state == old(s).in_fallback_state,
{
}

/// A new stream is open, has nothing to read and nothing to send, and shows the ids it was given.
pub proof fn law_new_stream_is_open(
    id: u32,
    session_id: usize,
    s: Stream,
    open: bool,
    shown: (u32, usize, bool),
)
    requires
        call_ensures(Stream::new, (id, session_id), s),
        call_ensures(Stream::is_open, (&s,), open),
        call_ensures(Stream::stream_id, (&s,), shown.0),
        call_ensures(Stream::session_id, (&s,), shown.1),
        call_ensures(Stream::fallback_state, (&s,), shown.2),
    ensures
        open,
        shown.0 == id,
        shown.1 == session_id,
        !shown.2,
        s.recv_buf.spec_len() == 0 && s.send_buf.spec_len() == 0,
        s.pending_data@.len() == 0,
{
}

} // verus!
