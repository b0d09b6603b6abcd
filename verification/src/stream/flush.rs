//! Writing to a stream and sending what was written.

use vstd::prelude::*;

use crate::buffer::linked;
use crate::buffer::linked::LinkedBuffer;
use crate::buffer::manager::BufferManager;
use crate::buffer::placement;
use crate::buffer::slice::BufferSlice;
use crate::buffer::taking;
use crate::error::Error;
use crate::protocol::event;
use crate::protocol::event::FallbackDataEvent;
use crate::protocol::wire;
use crate::queue::{Queue, QueueElement};
use crate::stats;
use crate::stats::Stats;
use crate::stream::pending::BufferSliceWrapper;
use crate::stream::state;
use crate::stream::state::{Stream, STREAM_OPENED};
use crate::stream::wakeup::{WakeUp, Wakeup};

verus! {

/// How often a full queue is tried again.
pub const QUEUE_FULL_RETRY_COUNT: u32 = 10;

/// How many milliseconds lie between two tries.
pub const QUEUE_FULL_RETRY_MILLIS: u64 = 10;

/// The slices that are sent: those up to the one that takes the next write.
pub open spec fn sent(b: LinkedBuffer) -> Seq<BufferSlice> {
    match b.write_pos() {
        Some(w) => b.slices().take(w + 1),
        None => b.slices(),
    }
}

/// The slices that nothing was written to, where all are in the region. They are given back before
/// anything is sent.
pub open spec fn cut(b: LinkedBuffer) -> Seq<BufferSlice> {
    if b.from_shm() {
        b.slices().skip(sent(b).len() as int)
    } else {
        Seq::empty()
    }
}

/// On the way from `a` to `c` the slices of `b` went back: those that nothing was written to, then
/// the others, but for the first one if it waits for its pins.
pub open spec fn went_back_after_cut(
    bm: BufferManager,
    b: LinkedBuffer,
    a: Seq<u8>,
    c: Seq<u8>,
) -> bool {
    let rest = b.slices().take(b.slices().len() - cut(b).len());
    let free = if b.waits() {
        rest.skip(1)
    } else {
        rest
    };
    &&& bm.frees(c) == taking::frees_with(
        bm,
        taking::frees_with(bm, bm.frees(a), cut(b)),
        free,
    )
    &&& bm.counters(c) == taking::counts_with(
        bm,
        taking::counts_with(bm, bm.counters(a), cut(b)),
        free,
    )
}

/// The first bytes of each slice, as many as there are to read in it.
pub open spec fn fronts(ss: Seq<BufferSlice>, m: Seq<u8>) -> Seq<u8>
    decreases ss.len(),
{
    if ss.len() == 0 {
        Seq::empty()
    } else {
        fronts(ss.drop_last(), m) + ss.last().bytes(m).take(
            ss.last().write_index - ss.last().read_index,
        )
    }
}

/// Where nothing was read, the first bytes of the slices are what there is to read.
pub proof fn lemma_fronts(ss: Seq<BufferSlice>, m: Seq<u8>)
    requires
        forall|i: int| 0 <= i < ss.len() ==> (#[trigger] ss[i]).read_index == 0 && ss[i].wf(m),
    ensures
        fronts(ss, m) == linked::content(ss, m),
    decreases ss.len(),
{
    if ss.len() > 0 {
        let t = ss.drop_last();
        assert forall|i: int| 0 <= i < t.len() implies (#[trigger] t[i]).read_index == 0
            && t[i].wf(m) by {
            assert(t[i] == ss[i]);
        }
        lemma_fronts(t, m);
        let s = ss[ss.len() - 1];
        assert(s.bytes(m).take(s.write_index as int) =~= s.unread(m));
    }
}

proof fn lemma_fronts_same(ss: Seq<BufferSlice>, a: Seq<u8>, b: Seq<u8>)
    requires
        forall|i: int| 0 <= i < ss.len() ==> (#[trigger] ss[i]).bytes(b) == ss[i].bytes(a),
    ensures
        fronts(ss, b) == fronts(ss, a),
    decreases ss.len(),
{
    if ss.len() > 0 {
        let t = ss.drop_last();
        assert forall|i: int| 0 <= i < t.len() implies (#[trigger] t[i]).bytes(b) == t[i].bytes(
            a,
        ) by {
            assert(t[i] == ss[i]);
        }
        lemma_fronts_same(t, a, b);
        assert(ss[ss.len() - 1].bytes(b) == ss[ss.len() - 1].bytes(a));
    }
}

/// What the peer finds at the position of the first slice is what the buffer holds.
pub open spec fn announces(b: LinkedBuffer, bm: BufferManager, m: Seq<u8>) -> bool {
    let w = BufferSliceWrapper { fallback_slice: None, offset: b.slices()[0].offset_in_shm };
    &&& b.slices().len() > 0
    &&& w.is_chain(m)
    &&& w.wf(bm, m)
    &&& w.bytes(bm, m) == b.content(m)
    &&& w.taken(bm, m) == linked::cells(b.slices())
}

/// The buffers of the region that the peer gets with the slices `ss`, if it gets them.
pub open spec fn handed_over(sent: bool, ss: Seq<BufferSlice>) -> Set<int> {
    if sent {
        linked::cells(ss)
    } else {
        Set::empty()
    }
}

/// What comes of a try to send.
#[derive(Debug)]
pub enum FlushStep {
    /// There was nothing to send.
    Empty,
    /// The queue took it. The peer is to be woken.
    Queued(WakeUp),
    /// It goes over the connection, and no new streams are opened for a while.
    Fallback(Vec<u8>),
    /// The queue is full. It is to be tried again.
    QueueFull,
    Failed(Error),
}

/// What a stream has to do to send.
pub enum FlushCase {
    Empty,
    Closed,
    TooLong,
    Fallback,
    Queue,
}

impl Stream {
    /// What the stream has to do to send.
    pub open spec fn flush_case(self) -> FlushCase {
        if self.send_buf.spec_len() == 0 {
            FlushCase::Empty
        } else if self.state != STREAM_OPENED {
            FlushCase::Closed
        } else if self.in_fallback_state || !self.send_buf.from_shm() {
            if self.send_buf.spec_len() > u32::MAX - 16 {
                FlushCase::TooLong
            } else {
                FlushCase::Fallback
            }
        } else {
            FlushCase::Queue
        }
    }

    /// The element that goes into the queue.
    pub open spec fn element(self) -> QueueElement {
        QueueElement {
            seq_id: self.id,
            offset_in_shm_buf: self.send_buf.slices()[0].offset_in_shm,
            status: STREAM_OPENED,
        }
    }

    /// Nothing but the send buffer and the fallback state differs.
    pub open spec fn same_but_send(self, other: Self) -> bool {
        &&& self.id == other.id
        &&& self.session_id == other.session_id
        &&& self.recv_buf == other.recv_buf
        &&& self.pending_data == other.pending_data
        &&& self.state == other.state
    }

    /// Writes all of `data` at the back of what is to be sent.
    pub fn write_bytes(&mut self, bm: &BufferManager, mem: &mut [u8], data: &[u8]) -> (r: Result<
        usize,
        Error,
    >)
        requires
            old(self).wf(*bm, old(mem)@),
            old(self).send_buf.spec_len() + data@.len() <= usize::MAX,
        ensures
            r == Ok::<usize, Error>(data@.len() as usize),
            final(self).wf(*bm, final(mem)@),
            final(mem)@.len() == old(mem)@.len(),
            old(self).evolves(*bm, old(mem)@, *final(self), final(mem)@),
            final(self).same_but_send(*old(self)),
            final(self).in_fallback_state == old(self).in_fallback_state,
            final(self).send_buf.content(final(mem)@) == old(self).send_buf.content(old(mem)@)
                + data@,
            old(self).send_buf.sendable(old(mem)@) ==> final(self).send_buf.sendable(final(mem)@),
            final(self).recv_buf.content(final(mem)@) == old(self).recv_buf.content(old(mem)@),
            final(self).incoming(*bm, final(mem)@) == old(self).incoming(*bm, old(mem)@),
            data@.len() > 0 ==> placement::placed(
                *bm,
                bm.frees(old(mem)@),
                old(self).send_buf,
                bm.frees(final(mem)@),
                final(self).send_buf,
                data@.len() as int,
            ),
            data@.len() == 0 ==> *final(self) == *old(self) && final(mem)@ == old(mem)@,
            final(self).send_buf.pins() == old(self).send_buf.pins(),
            bm.in_balance(old(mem)@) ==> bm.in_balance(final(mem)@),
            bm.keeps(old(mem)@, final(mem)@, linked::cells(old(self).send_buf.slices())),
    {
        let ghost s0 = *self;
        let ghost m0 = mem@;
        let r = self.send_buf.write_bytes(bm, mem, data);
        proof {
            s0.lemma_send_changed(*bm, m0, *self, mem@);
        }
        r
    }

    /// What holds of the stream after its send buffer changed. No buffer in use but those of the
    /// send buffer changed.
    pub open spec fn send_changed(
        self,
        bm: BufferManager,
        a: Seq<u8>,
        next: Self,
        b: Seq<u8>,
    ) -> bool {
        &&& next.wf(bm, b)
        &&& self.evolves(bm, a, next, b)
        &&& next.same_but_send(self)
        &&& next.in_fallback_state == self.in_fallback_state
        &&& next.recv_buf.content(b) == self.recv_buf.content(a)
        &&& next.incoming(bm, b) == self.incoming(bm, a)
        &&& bm.keeps(a, b, linked::cells(self.send_buf.slices()))
    }

    /// Whatever the send buffer becomes, the rest of the stream takes no notice.
    proof fn lemma_any_send(self, bm: BufferManager, a: Seq<u8>)
        requires
            self.wf(bm, a),
        ensures
            forall|x: LinkedBuffer, b: Seq<u8>| #[trigger]
                self.send_buf.evolves(bm, a, x, b) && x.wf(bm, b) ==> self.send_changed(
                    bm,
                    a,
                    Stream { send_buf: x, ..self },
                    b,
                ),
    {
        assert forall|x: LinkedBuffer, b: Seq<u8>| #[trigger]
            self.send_buf.evolves(bm, a, x, b) && x.wf(bm, b) implies self.send_changed(
            bm,
            a,
            Stream { send_buf: x, ..self },
            b,
        ) by {
            self.lemma_send_changed(bm, a, Stream { send_buf: x, ..self }, b);
        }
    }

    /// Hands out the next `size` bytes to be written. What is put there is written.
    pub fn reserve<'a>(&'a mut self, bm: &BufferManager, mem: &'a mut [u8], size: usize) -> (r:
        Result<&'a mut [u8], Error>)
        requires
            old(self).wf(*bm, old(mem)@),
            size > 0 || old(self).send_buf.can_begin(*bm, old(mem)@),
            size <= u32::MAX ==> old(self).send_buf.spec_len() + size <= usize::MAX,
        ensures
            r is Ok <==> size <= u32::MAX,
            match r {
                Ok(out) => {
                    &&& out@.len() == size
                    &&& final(out)@.len() == size ==> {
                        &&& old(self).send_changed(*bm, old(mem)@, *final(self), final(mem)@)
                        &&& final(mem)@.len() == old(mem)@.len()
                        &&& final(self).send_buf.content(final(mem)@)
                            == old(self).send_buf.content(old(mem)@) + final(out)@
                        &&& old(self).send_buf.sendable(old(mem)@)
                            ==> final(self).send_buf.sendable(final(mem)@)
                        &&& final(self).send_buf.pins() == old(self).send_buf.pins()
                        &&& bm.in_balance(old(mem)@) ==> bm.in_balance(final(mem)@)
                        &&& placement::reserved(
                            *bm,
                            bm.frees(old(mem)@),
                            old(self).send_buf,
                            bm.frees(final(mem)@),
                            final(self).send_buf,
                            size as int,
                        )
                    }
                },
                Err(e) => {
                    &&& e == Error::NoMoreBuffer
                    &&& *final(self) == *old(self)
                    &&& final(mem)@ == old(mem)@
                },
            },
    {
        proof {
            self.lemma_any_send(*bm, mem@);
        }
        self.send_buf.reserve(bm, mem, size)
    }

    /// The bytes that go over the connection: a header and what was written.
    fn fallback_data(&self, mem: &[u8], msg_version: u8) -> (r: Vec<u8>)
        requires
            forall|i: int|
                0 <= i < self.send_buf.slices().len() ==> (#[trigger] self.send_buf.slices()[i]).wf(
                    mem@,
                ),
            self.send_buf.write_pos() matches Some(w) ==> 0 <= w < self.send_buf.slices().len(),
            self.send_buf.spec_len() <= u32::MAX - 16,
        ensures
            r@ == event::fallback_frame(
                (self.send_buf.spec_len() + 16) as u32,
                msg_version,
                self.id,
                STREAM_OPENED,
            ) + fronts(sent(self.send_buf), mem@),
    {
        let mut head = FallbackDataEvent::new();
        head.encode(self.send_buf.len() as u32 + 16, msg_version, self.id, STREAM_OPENED);
        let mut data: Vec<u8> = Vec::new();
        wire::push_all(&mut data, head.as_slice());
        let ghost h = data@;
        let list = self.send_buf.slice_list();
        let ghost ss = sent(self.send_buf);
        let total: usize = list.size();
        let n: usize = match list.write_slice() {
            Some(w) => w + 1,
            None => total,
        };
        let mut i: usize = 0;
        assert(ss.take(0) =~= Seq::<BufferSlice>::empty());
        assert(h + Seq::<u8>::empty() =~= h);
        while i < n
            invariant
                i <= n == ss.len(),
                n <= list@.len(),
                forall|k: int| 0 <= k < n ==> ss[k] == list@[k],
                forall|k: int| 0 <= k < list@.len() ==> (#[trigger] list@[k]).wf(mem@),
                data@ == h + fronts(ss.take(i as int), mem@),
            decreases n - i,
        {
            let s = list.get(i);
            assert(list@[i as int].wf(mem@));
            let part: &[u8] = s.range(mem, 0, s.write_index - s.read_index);
            wire::push_all(&mut data, part);
            proof {
                assert(ss.take(i + 1).drop_last() =~= ss.take(i as int));
                assert(ss.take(i + 1).last() == ss[i as int]);
                assert(part@ =~= ss[i as int].bytes(mem@).take(
                    ss[i as int].write_index - ss[i as int].read_index,
                ));
                assert(h + fronts(ss.take(i as int), mem@) + part@ =~= h + (fronts(
                    ss.take(i as int),
                    mem@,
                ) + part@));
            }
            i = i + 1;
        }
        assert(ss.take(n as int) =~= ss);
        data
    }

    /// Gives up everything that was to be sent.
    fn drop_send(&mut self, bm: &BufferManager, mem: &mut [u8])
        requires
            old(self).wf(*bm, old(mem)@),
        ensures
            final(self).wf(*bm, final(mem)@),
            final(mem)@.len() == old(mem)@.len(),
            old(self).evolves(*bm, old(mem)@, *final(self), final(mem)@),
            final(self).same_but_send(*old(self)),
            final(self).in_fallback_state == old(self).in_fallback_state,
            final(self).recv_buf.content(final(mem)@) == old(self).recv_buf.content(old(mem)@),
            final(self).incoming(*bm, final(mem)@) == old(self).incoming(*bm, old(mem)@),
            final(self).send_buf.slices().len() == 0,
            final(self).send_buf.spec_len() == 0,
            final(self).send_buf.from_shm(),
            final(self).send_buf.sendable(final(mem)@),
            gave_up(*bm, old(self).send_buf, final(mem)@),
            old(self).send_buf.emptied(final(self).send_buf),
            old(self).send_buf.went_back(*bm, old(mem)@, final(mem)@),
            bm.keeps(old(mem)@, final(mem)@, linked::cells(old(self).send_buf.slices())),
    {
        let ghost s0 = *self;
        let ghost m0 = mem@;
        self.send_buf.recycle(bm, mem);
        proof {
            s0.lemma_send_changed(*bm, m0, *self, mem@);
            self.send_buf.lemma_sendable_empty(mem@);
        }
    }

    /// Puts what was written into the queue, if there is room.
    fn queue_up(
        &mut self,
        bm: &BufferManager,
        mem: &mut [u8],
        queue: &Queue,
        queue_mem: &mut [u8],
        wakeup: &Wakeup,
        stats: &mut Stats,
    ) -> (r: Option<WakeUp>)
        requires
            old(self).wf(*bm, old(mem)@),
            old(self).send_buf.slices().len() > 0,
            queue.wf(old(queue_mem)@),
            queue.tail(old(queue_mem)@) < i64::MAX,
            wakeup.msg_version <= 3,
        ensures
            final(self).wf(*bm, final(mem)@),
            final(mem)@ == old(mem)@,
            old(self).evolves_but(
                *bm,
                old(mem)@,
                *final(self),
                final(mem)@,
                handed_over(r is Some, old(self).send_buf.slices()),
            ),
            final(self).same_but_send(*old(self)),
            final(self).in_fallback_state == old(self).in_fallback_state,
            queue.wf(final(queue_mem)@),
            r is Some <==> queue.elements(old(queue_mem)@).len() < queue.capacity(),
            match r {
                Some(w) => {
                    &&& wakeup.announced(
                        w,
                        *queue,
                        old(queue_mem)@,
                        final(queue_mem)@,
                        old(self).element(),
                    )
                    &&& *final(stats) == wakeup.counted(*old(stats), *queue, old(queue_mem)@)
                    &&& old(self).send_buf.emptied(final(self).send_buf)
                    &&& final(self).send_buf.sendable(final(mem)@)
                },
                None => {
                    &&& *final(self) == *old(self)
                    &&& final(queue_mem)@ == old(queue_mem)@
                    &&& *final(stats) == *old(stats)
                },
            },
    {
        let ghost s0 = *self;
        let ghost m0 = mem@;
        let offset: u32 = self.send_buf.root_buf_offset();
        let element = QueueElement {
            seq_id: self.id,
            offset_in_shm_buf: offset,
            status: STREAM_OPENED,
        };
        match wakeup.announce(queue, queue_mem, element, stats) {
            Some(w) => {
                self.send_buf.clean(bm, mem);
                proof {
                    Self::lemma_let_go(*bm, s0, *self, m0);
                    self.send_buf.lemma_sendable_empty(mem@);
                }
                Some(w)
            },
            None => {
                proof {
                    s0.lemma_evolves_refl(*bm, m0);
                }
                None
            },
        }
    }

    /// The slices of the send buffer were let go.
    proof fn lemma_let_go(bm: BufferManager, a: Self, b: Self, m: Seq<u8>)
        requires
            a.wf(bm, m),
            b.same_but_send(a),
            b.send_buf.wf(bm, m),
            b.send_buf.slices().len() == 0,
            b.send_buf.pins().retired() == if a.send_buf.slices().len() > 0
                && a.send_buf.pins().front_pinned() {
                a.send_buf.pins().retired().push(a.send_buf.slices()[0])
            } else {
                a.send_buf.pins().retired()
            },
        ensures
            b.wf(bm, m),
            a.evolves_but(bm, m, b, m, linked::cells(a.send_buf.slices())),
    {
        assert(bm.keeps(m, m, a.owned(bm, m))) by {
            reveal(BufferManager::keeps);
        }
        let ss = a.send_buf.slices();
        if ss.len() > 0 {
            linked::lemma_cells_push(a.send_buf.pins().retired(), ss[0]);
        }
        assert forall|o: int| #[trigger] state::held(b.send_buf).contains(o) implies state::held(
            a.send_buf,
        ).contains(o) by {
            if linked::cells(b.send_buf.slices()).contains(o) {
                let i = choose|i: int| #[trigger] linked::cell_at(b.send_buf.slices(), i, o);
            } else if !linked::cells(a.send_buf.pins().retired()).contains(o) {
                assert(linked::cell_at(ss, 0, o));
            }
        }
        let ws = a.pending_data@;
        assert forall|i: int| 0 <= i < ws.len() implies (#[trigger] ws[i]).taken(bm, m).disjoint(
            state::held(b.send_buf),
        ) by {
            assert(ws[i].taken(bm, m).disjoint(state::held(a.send_buf)));
        }
    }

    /// How a flush ends, and what it does to the region of the queue, which goes from `a` to `b`.
    pub open spec fn flush_ends(
        self,
        r: FlushStep,
        wakeup: Wakeup,
        queue: Queue,
        a: Seq<u8>,
        b: Seq<u8>,
    ) -> bool {
        match self.flush_case() {
            FlushCase::Empty => r is Empty && b == a,
            FlushCase::Closed => r == FlushStep::Failed(Error::StreamClosed) && b == a,
            FlushCase::TooLong => r == FlushStep::Failed(Error::NoMoreBuffer) && b == a,
            FlushCase::Fallback => r is Fallback && b == a,
            FlushCase::Queue => if queue.elements(a).len() < queue.capacity() {
                &&& r is Queued
                &&& wakeup.announced(r->Queued_0, queue, a, b, self.element())
            } else {
                r is QueueFull && b == a
            },
        }
    }

    /// Sends what was written: through the queue, or over the connection if part of it is not in
    /// the region or if something went over the connection before.
    pub fn flush(
        &mut self,
        bm: &BufferManager,
        mem: &mut [u8],
        queue: &Queue,
        queue_mem: &mut [u8],
        wakeup: &Wakeup,
        stats: &mut Stats,
        end_stream: bool,
    ) -> (r: FlushStep)
        requires
            old(self).wf(*bm, old(mem)@),
            queue.wf(old(queue_mem)@),
            queue.tail(old(queue_mem)@) < i64::MAX,
            wakeup.msg_version <= 3,
        ensures
            final(self).wf(*bm, final(mem)@),
            final(mem)@.len() == old(mem)@.len(),
            old(self).evolves_but(
                *bm,
                old(mem)@,
                *final(self),
                final(mem)@,
                handed_over(r is Queued, sent(old(self).send_buf)),
            ),
            final(self).same_but_send(*old(self)),
            final(self).recv_buf.content(final(mem)@) == old(self).recv_buf.content(old(mem)@),
            final(self).incoming(*bm, final(mem)@) == old(self).incoming(*bm, old(mem)@),
            queue.wf(final(queue_mem)@),
            old(self).flush_ends(r, *wakeup, *queue, old(queue_mem)@, final(queue_mem)@),
            old(self).send_buf.sendable(old(mem)@) ==> final(self).send_buf.sendable(final(mem)@),
            bm.in_balance(old(mem)@) ==> bm.in_balance(final(mem)@),
            bm.keeps(old(mem)@, final(mem)@, linked::cells(old(self).send_buf.slices())),
            ({
                let counted = Stats {
                    out_flow_bytes: stats::wrap_add(
                        old(stats).out_flow_bytes,
                        old(self).send_buf.spec_len() as u64,
                    ),
                    ..*old(stats)
                };
                let emptied = old(self).send_buf.emptied(final(self).send_buf);
                match old(self).flush_case() {
                    FlushCase::Empty => {
                        &&& *final(self) == *old(self)
                        &&& final(mem)@ == old(mem)@
                        &&& *final(stats) == *old(stats)
                    },
                    FlushCase::Closed => {
                        &&& emptied
                        &&& gave_up(*bm, old(self).send_buf, final(mem)@)
                        &&& old(self).send_buf.went_back(*bm, old(mem)@, final(mem)@)
                        &&& final(self).in_fallback_state == old(self).in_fallback_state
                        &&& *final(stats) == counted
                    },
                    FlushCase::TooLong => {
                        &&& emptied
                        &&& went_back_after_cut(
                            *bm,
                            old(self).send_buf,
                            old(mem)@,
                            final(mem)@,
                        )
                        &&& final(self).in_fallback_state
                        &&& *final(stats) == counted
                    },
                    FlushCase::Fallback => {
                        &&& r->Fallback_0@ == event::fallback_frame(
                            (old(self).send_buf.spec_len() + 16) as u32,
                            wakeup.msg_version,
                            old(self).id,
                            STREAM_OPENED,
                        ) + fronts(sent(old(self).send_buf), old(mem)@)
                        &&& emptied
                        &&& went_back_after_cut(
                            *bm,
                            old(self).send_buf,
                            old(mem)@,
                            final(mem)@,
                        )
                        &&& final(self).in_fallback_state
                        &&& *final(stats) == (Stats {
                            fallback_write_count: stats::wrap_add(counted.fallback_write_count, 1),
                            ..counted
                        })
                    },
                    FlushCase::Queue => {
                        let unused = cut(old(self).send_buf);
                        &&& final(self).in_fallback_state == old(self).in_fallback_state
                        &&& bm.frees(final(mem)@) == taking::frees_with(
                            *bm,
                            bm.frees(old(mem)@),
                            unused,
                        )
                        &&& bm.counters(final(mem)@) == taking::counts_with(
                            *bm,
                            bm.counters(old(mem)@),
                            unused,
                        )
                        &&& if queue.elements(old(queue_mem)@).len() < queue.capacity() {
                            &&& *final(stats) == wakeup.counted(
                                counted,
                                *queue,
                                old(queue_mem)@,
                            )
                            &&& emptied
                            &&& linked::recorded(
                                sent(old(self).send_buf),
                                old(mem)@,
                                final(mem)@,
                            )
                            &&& old(self).send_buf.sendable(old(mem)@) ==> sends(
                                *bm,
                                final(mem)@,
                                old(self).element().offset_in_shm_buf,
                                old(self).send_buf.content(old(mem)@),
                                linked::cells(sent(old(self).send_buf)),
                            )
                        } else {
                            &&& *final(stats) == (Stats {
                                queue_full_error_count: stats::wrap_add(
                                    counted.queue_full_error_count,
                                    1,
                                ),
                                ..counted
                            })
                            &&& final(self).send_buf.slices() == sent(old(self).send_buf)
                            &&& final(self).send_buf.write_pos() == old(self).send_buf.write_pos()
                            &&& final(self).send_buf.pins() == old(self).send_buf.pins()
                            &&& final(self).send_buf.content(final(mem)@)
                                == old(self).send_buf.content(old(mem)@)
                            &&& final(self).send_buf.from_shm()
                            &&& old(self).send_buf.sendable(old(mem)@) ==> announces(
                                final(self).send_buf,
                                *bm,
                                final(mem)@,
                            )
                        }
                    },
                }
            }),
    {
        if self.send_buf.is_empty() {
            proof {
                self.lemma_evolves_refl(*bm, mem@);
                self.send_buf.lemma_evolves_refl(*bm, mem@);
            }
            return FlushStep::Empty;
        }
        let ghost s0 = *self;
        let ghost m0 = mem@;
        stats::count(&mut stats.out_flow_bytes, self.send_buf.len() as u64);
        if self.state != STREAM_OPENED {
            self.drop_send(bm, mem);
            proof {
                if bm.in_balance(m0) {
                    s0.send_buf.law_counts_follow_giving_up(*bm, m0, mem@);
                }
            }
            return FlushStep::Failed(Error::StreamClosed);
        }
        let ghost w = self.send_buf.write_pos()->0;
        proof {
            if self.send_buf.write_pos() is None {
                linked::lemma_content_empty(self.send_buf.slices(), m0);
            }
            assert(self.send_buf.write_pos() is Some);
        }
        self.send_buf.done(bm, mem, end_stream);
        proof {
            s0.lemma_send_changed(*bm, m0, *self, mem@);
            if s0.send_buf.sendable(m0) {
                s0.send_buf.lemma_sendable_done(m0, self.send_buf, mem@, w);
            }
        }
        let ghost s1 = *self;
        let ghost m1 = mem@;
        if !self.send_buf.is_from_share_memory() {
            self.in_fallback_state = true;
        }
        if self.in_fallback_state {
            self.in_fallback_state = true;
            let ghost s2 = *self;
            assert(s1.owned(*bm, m1) == s2.owned(*bm, m1));
            assert(s0.evolves(*bm, m0, s2, m1));
            if self.send_buf.len() as u64 > (u32::MAX - 16) as u64 {
                self.drop_send(bm, mem);
                proof {
                    s0.lemma_evolves_trans(*bm, m0, s2, m1, *self, mem@);
                    Self::lemma_cut(*bm, s0.send_buf, m0, s2.send_buf, m1, mem@);
                }
                return FlushStep::Failed(Error::NoMoreBuffer);
            }
            let data: Vec<u8> = self.fallback_data(mem, wakeup.msg_version);
            proof {
                assert(sent(s1.send_buf) =~= sent(s0.send_buf));
                let ss = sent(s0.send_buf);
                assert forall|i: int| 0 <= i < ss.len() implies (#[trigger] ss[i]).bytes(m1)
                    == ss[i].bytes(m0) by {
                    assert(s1.send_buf.slices()[i] == ss[i]);
                }
                lemma_fronts_same(ss, m0, m1);
            }
            self.drop_send(bm, mem);
            proof {
                s0.lemma_evolves_trans(*bm, m0, s2, m1, *self, mem@);
                Self::lemma_cut(*bm, s0.send_buf, m0, s2.send_buf, m1, mem@);
            }
            stats::count(&mut stats.fallback_write_count, 1);
            return FlushStep::Fallback(data);
        }
        proof {
            assert(s1.send_buf.slices()[0] == s0.send_buf.slices()[0]);
            assert(sent(s0.send_buf) == s1.send_buf.slices());
            if s0.send_buf.sendable(m0) {
                Self::lemma_announces(*bm, s0, m0, s1, m1, w);
            }
        }
        match self.queue_up(bm, mem, queue, queue_mem, wakeup, stats) {
            Some(up) => {
                proof {
                    let gone = linked::cells(s1.send_buf.slices());
                    s0.lemma_evolves_but_trans(*bm, m0, s1, m1, *self, mem@, Set::empty(), gone);
                    assert(Set::<int>::empty().union(gone) =~= gone);
                }
                FlushStep::Queued(up)
            },
            None => {
                stats::count(&mut stats.queue_full_error_count, 1);
                FlushStep::QueueFull
            },
        }
    }

    /// What was written and then given up went back in two steps.
    proof fn lemma_cut(
        bm: BufferManager,
        s: LinkedBuffer,
        a: Seq<u8>,
        t: LinkedBuffer,
        b: Seq<u8>,
        c: Seq<u8>,
    )
        requires
            s.wf(bm, a),
            t.wf(bm, b),
            bm.wf(c),
            t.slices() == if s.from_shm() {
                sent(s)
            } else {
                s.slices()
            },
            t.pins() == s.pins(),
            bm.frees(b) == taking::frees_with(
                bm,
                bm.frees(a),
                s.slices().skip(t.slices().len() as int),
            ),
            bm.counters(b) == taking::counts_with(
                bm,
                bm.counters(a),
                s.slices().skip(t.slices().len() as int),
            ),
            bm.in_balance(a) ==> bm.in_balance(b),
            t.went_back(bm, b, c),
            bm.keeps(a, b, linked::cells(s.slices())),
            bm.keeps(b, c, linked::cells(t.slices())),
        ensures
            went_back_after_cut(bm, s, a, c),
            bm.in_balance(a) ==> bm.in_balance(c),
            bm.keeps(a, c, linked::cells(s.slices())),
    {
        let n = t.slices().len() as int;
        assert forall|o: int| linked::cells(t.slices()).contains(o) implies linked::cells(
            s.slices(),
        ).contains(o) by {
            let i = choose|i: int| #[trigger] linked::cell_at(t.slices(), i, o);
            assert(linked::cell_at(s.slices(), i, o));
        }
        bm.lemma_keeps_trans(a, b, c, linked::cells(s.slices()), linked::cells(t.slices()));
        assert(s.slices().skip(n) =~= cut(s));
        assert(s.slices().take(n) =~= t.slices());
        if bm.in_balance(b) {
            t.law_counts_follow_giving_up(bm, b, c);
        }
    }

    /// What was recorded is what the peer finds.
    proof fn lemma_announces(
        bm: BufferManager,
        s0: Self,
        m0: Seq<u8>,
        s1: Self,
        m1: Seq<u8>,
        w: int,
    )
        requires
            s0.send_buf.wf(bm, m0),
            s0.send_buf.sendable(m0),
            s0.send_buf.from_shm(),
            s0.send_buf.write_pos() == Some(w),
            s1.send_buf.wf(bm, m1),
            s1.send_buf.slices() == s0.send_buf.slices().take(w + 1),
            s1.send_buf.from_shm(),
            linked::recorded(s1.send_buf.slices(), m0, m1),
        ensures
            announces(s1.send_buf, bm, m1),
    {
        reveal(LinkedBuffer::sendable);
        let ss = s1.send_buf.slices();
        let o = ss[0].offset_in_shm as int;
        assert forall|i: int| 0 <= i < ss.len() implies (#[trigger] ss[i]).read_index == 0
            && ss[i].start == 0 && ss[i].is_from_shm by {
            assert(ss[i] == s0.send_buf.slices()[i]);
        }
        assert(ss.last() == s0.send_buf.slices()[w]);
        linked::law_peer_reads_what_was_written(bm, m0, m1, ss);
        let q = linked::offsets(ss);
        assert(bm.is_allocated(m1, q[0]));
        let li = choose|j: int| bm.in_use(m1, j, o);
        bm.lemma_in_use(m1, li, o);
        bm.lists@[li].lemma_fits(m1);
        assert(q.to_set() =~= linked::cells(ss)) by {
            assert forall|p: int| q.to_set().contains(p) == linked::cells(ss).contains(p) by {
                if q.to_set().contains(p) {
                    let i = choose|i: int| 0 <= i < q.len() && q[i] == p;
                    assert(linked::cell_at(ss, i, p));
                }
                if linked::cells(ss).contains(p) {
                    let i = choose|i: int| #[trigger] linked::cell_at(ss, i, p);
                    assert(q[i] == p);
                }
            }
        }
    }

    /// Tries again to send what the queue had no room for. `tries` were made before, and `closed`
    /// tells whether the stream was closed while waiting. After the last try the data stays with
    /// the stream.
    pub fn retry_flush(
        &mut self,
        bm: &BufferManager,
        mem: &mut [u8],
        queue: &Queue,
        queue_mem: &mut [u8],
        wakeup: &Wakeup,
        stats: &mut Stats,
        tries: u32,
        closed: bool,
    ) -> (r: FlushStep)
        requires
            old(self).wf(*bm, old(mem)@),
            old(self).send_buf.slices().len() > 0,
            queue.wf(old(queue_mem)@),
            queue.tail(old(queue_mem)@) < i64::MAX,
            wakeup.msg_version <= 3,
            tries < QUEUE_FULL_RETRY_COUNT,
        ensures
            final(self).wf(*bm, final(mem)@),
            final(mem)@.len() == old(mem)@.len(),
            old(self).evolves_but(
                *bm,
                old(mem)@,
                *final(self),
                final(mem)@,
                handed_over(r is Queued, old(self).send_buf.slices()),
            ),
            final(self).same_but_send(*old(self)),
            final(self).in_fallback_state == old(self).in_fallback_state,
            queue.wf(final(queue_mem)@),
            ({
                let emptied = old(self).send_buf.emptied(final(self).send_buf);
                if closed {
                    &&& bm.keeps(
                        old(mem)@,
                        final(mem)@,
                        linked::cells(old(self).send_buf.slices()),
                    )
                    &&& r == FlushStep::Failed(Error::StreamClosed)
                    &&& emptied
                    &&& gave_up(*bm, old(self).send_buf, final(mem)@)
                    &&& old(self).send_buf.went_back(*bm, old(mem)@, final(mem)@)
                    &&& final(queue_mem)@ == old(queue_mem)@
                    &&& *final(stats) == *old(stats)
                } else if queue.elements(old(queue_mem)@).len() < queue.capacity() {
                    &&& r is Queued
                    &&& wakeup.announced(
                        r->Queued_0,
                        *queue,
                        old(queue_mem)@,
                        final(queue_mem)@,
                        old(self).element(),
                    )
                    &&& *final(stats) == wakeup.counted(*old(stats), *queue, old(queue_mem)@)
                    &&& emptied
                    &&& final(mem)@ == old(mem)@
                } else {
                    &&& r == if tries + 1 < QUEUE_FULL_RETRY_COUNT {
                        FlushStep::QueueFull
                    } else {
                        FlushStep::Failed(Error::QueueFull)
                    }
                    &&& *final(self) == *old(self)
                    &&& final(mem)@ == old(mem)@
                    &&& final(queue_mem)@ == old(queue_mem)@
                    &&& *final(stats) == *old(stats)
                }
            }),
    {
        if closed {
            self.drop_send(bm, mem);
            return FlushStep::Failed(Error::StreamClosed);
        }
        match self.queue_up(bm, mem, queue, queue_mem, wakeup, stats) {
            Some(up) => FlushStep::Queued(up),
            None => if tries + 1 < QUEUE_FULL_RETRY_COUNT {
                FlushStep::QueueFull
            } else {
                FlushStep::Failed(Error::QueueFull)
            },
        }
    }
}

/// The buffers of the region that `b` held are free, but for one that waits for its pins.
pub open spec fn gave_up(bm: BufferManager, b: LinkedBuffer, m: Seq<u8>) -> bool {
    forall|i: int|
        0 <= i < b.slices().len() && (#[trigger] b.slices()[i]).is_from_shm && !(i == 0
            && b.pins().front_pinned()) ==> !bm.is_allocated(
            m,
            b.slices()[i].offset_in_shm as int,
        )
}

/// A peer that takes up the data at `offset` gets `bytes`, in the buffers `own`.
pub open spec fn sends(
    bm: BufferManager,
    m: Seq<u8>,
    offset: u32,
    bytes: Seq<u8>,
    own: Set<int>,
) -> bool {
    let w = BufferSliceWrapper { fallback_slice: None, offset };
    &&& w.is_chain(m)
    &&& w.wf(bm, m)
    &&& w.bytes(bm, m) == bytes
    &&& w.taken(bm, m) == own
}

/// One wakeup serves a batch of flushes of a session that does not poll: after a flush that was
/// queued, whatever is put into the queue and taken out of it, the next flush that finds room wakes
/// nobody until the consumer goes to sleep. The other queue of the region keeps what it holds and
/// its flag.
pub proof fn law_one_wakeup_for_a_batch_of_flushes(
    first: Stream,
    second: Stream,
    wakeup: Wakeup,
    queue: Queue,
    other: Queue,
    a: Seq<u8>,
    b: Seq<u8>,
    between: Seq<Seq<u8>>,
    c: Seq<u8>,
    d: Seq<u8>,
    r1: FlushStep,
    r2: FlushStep,
)
    requires
        !(wakeup.feature is EventQueuePolling),
        first.flush_ends(r1, wakeup, queue, a, b),
        r1 is Queued,
        between.len() > 0,
        between[0] == b,
        between.last() == c,
        forall|i: int, j: int|
            0 <= i && j == i + 1 && j < between.len() ==> wakeup.goes_on(
                queue,
                #[trigger] between[i],
                #[trigger] between[j],
            ),
        second.flush_ends(r2, wakeup, queue, c, d),
        second.flush_case() == FlushCase::Queue,
        queue.elements(c).len() < queue.capacity(),
        other.wf(c),
        other.end() <= queue.base() || queue.end() <= other.base(),
    ensures
        r2 == FlushStep::Queued(WakeUp::Nothing),
        queue.elements(d) == queue.elements(c).push(second.element()),
        queue.working_flag(d) != 0,
        other.wf(d),
        other.elements(d) == other.elements(c),
        other.working_flag(d) == other.working_flag(c),
{
    wakeup.law_one_wakeup_for_a_batch(
        r1->Queued_0,
        queue,
        a,
        first.element(),
        between,
        between.len() - 1,
    );
    wakeup.law_other_queue_stays(r2->Queued_0, queue, other, c, d, second.element());
}

/// An open stream sends a first write through the queue where the buffers that the region has to
/// spare hold it, and over the connection where they do not.
pub proof fn law_shared_memory_comes_first(
    bm: BufferManager,
    f: Seq<Seq<int>>,
    s: Stream,
    g: Seq<Seq<int>>,
    t: Stream,
    size: int,
)
    requires
        0 < size <= u32::MAX - 16,
        s.state == STREAM_OPENED,
        !s.in_fallback_state,
        s.send_buf.from_shm(),
        s.send_buf.write_pos() is None,
        t.state == s.state,
        t.in_fallback_state == s.in_fallback_state,
        t.send_buf.spec_len() == size,
        placement::placed(bm, f, s.send_buf, g, t.send_buf, size),
    ensures
        t.flush_case() == if size <= placement::spare(bm, f, bm.lists@.len() - 1, 0) {
            FlushCase::Queue
        } else {
            FlushCase::Fallback
        },
{
    placement::law_written_stays_shared(bm, f, s.send_buf, g, t.send_buf, size);
}

/// What is written stands behind what was written before, byte for byte, and nothing that came in
/// changes. All of it is taken, whatever it is and however long.
pub proof fn law_what_is_written_is_kept(
    s: &mut Stream,
    t: &mut Stream,
    bm: &BufferManager,
    m: &mut [u8],
    n: &mut [u8],
    x: &[u8],
    y: &[u8],
    a: Result<usize, Error>,
    b: Result<usize, Error>,
)
    requires
        call_ensures(Stream::write_bytes, (s, bm, m, x), a),
        *old(t) == *final(s),
        old(n)@ == final(m)@,
        call_ensures(Stream::write_bytes, (t, bm, n, y), b),
    ensures
        a is Ok && a->Ok_0 == x@.len(),
        b is Ok && b->Ok_0 == y@.len(),
        final(t).send_buf.content(final(n)@) =~= old(s).send_buf.content(old(m)@) + x@ + y@,
        final(t).recv_buf == old(s).recv_buf,
        final(t).recv_buf.content(final(n)@) == old(s).recv_buf.content(old(m)@),
        final(t).pending_data == old(s).pending_data,
        final(t).state == old(s).state,
        final(t).in_fallback_state == old(s).in_fallback_state,
{
    assert(x.len() == x@.len() && y.len() == y@.len());
}

/// What an open stream wrote into the region goes into the queue where that has room: behind
/// everything that waits there, under the id of the stream, as data, and at a position at which
/// the peer finds exactly the bytes that were written. Then nothing of it is left to be sent.
pub proof fn law_written_bytes_go_by_the_queue(
    s: &mut Stream,
    bm: &BufferManager,
    m: &mut [u8],
    queue: &Queue,
    qm: &mut [u8],
    wakeup: &Wakeup,
    stats: &mut Stats,
    end_stream: bool,
    r: FlushStep,
)
    requires
        call_ensures(Stream::flush, (s, bm, m, queue, qm, wakeup, stats, end_stream), r),
        old(s).state == STREAM_OPENED,
        !old(s).in_fallback_state,
        old(s).send_buf.from_shm(),
        old(s).send_buf.spec_len() > 0,
        old(s).send_buf.sendable(old(m)@),
    ensures
        queue.elements(old(qm)@).len() < queue.capacity() ==> {
            let e = queue.elements(final(qm)@).last();
            let w = BufferSliceWrapper { fallback_slice: None, offset: e.offset_in_shm_buf };
            &&& r is Queued
            &&& queue.elements(final(qm)@).len() == queue.elements(old(qm)@).len() + 1
            &&& queue.elements(final(qm)@).drop_last() =~= queue.elements(old(qm)@)
            &&& e.seq_id == old(s).id
            &&& e.status == 0
            &&& w.wf(*bm, final(m)@)
            &&& w.bytes(*bm, final(m)@) == old(s).send_buf.content(old(m)@)
            &&& final(s).send_buf.spec_len() == 0
            &&& final(s).send_buf.slices().len() == 0
            &&& !(wakeup.feature is EventQueuePolling) ==> queue.working_flag(final(qm)@) != 0
            &&& r->Queued_0 is Nothing <==> wakeup.feature is EventQueuePolling
                || queue.working_flag(old(qm)@) != 0
        },
        queue.elements(old(qm)@).len() >= queue.capacity() ==> {
            &&& r is QueueFull
            &&& final(qm)@ == old(qm)@
            &&& final(s).send_buf.content(final(m)@) == old(s).send_buf.content(old(m)@)
            &&& final(stats).queue_full_error_count == stats::wrap_add(
                old(stats).queue_full_error_count,
                1,
            )
        },
        final(s).recv_buf == old(s).recv_buf,
        final(s).pending_data == old(s).pending_data,
        final(s).state == STREAM_OPENED,
        !final(s).in_fallback_state,
        final(stats).out_flow_bytes == stats::wrap_add(
            old(stats).out_flow_bytes,
            old(s).send_buf.spec_len() as u64,
        ),
{
}

/// A stream that is not open sends nothing, and what it wrote is given up. One that wrote nothing
/// sends nothing whatever its state is, and that is no failure.
pub proof fn law_only_open_streams_send(
    s: &mut Stream,
    bm: &BufferManager,
    m: &mut [u8],
    queue: &Queue,
    qm: &mut [u8],
    wakeup: &Wakeup,
    stats: &mut Stats,
    end_stream: bool,
    r: FlushStep,
)
    requires
        call_ensures(Stream::flush, (s, bm, m, queue, qm, wakeup, stats, end_stream), r),
    ensures
        r is Empty <==> old(s).send_buf.spec_len() == 0,
        r is Empty ==> *final(s) == *old(s) && final(m)@ == old(m)@ && *final(stats)
            == *old(stats),
        r == FlushStep::Failed(Error::StreamClosed) <==> old(s).send_buf.spec_len() > 0 && old(s).state != STREAM_OPENED,
        r == FlushStep::Failed(Error::NoMoreBuffer) <==> old(s).send_buf.spec_len() > u32::MAX - 16
            && old(s).state == STREAM_OPENED && (old(s).in_fallback_state
            || !old(s).send_buf.from_shm()),
        r is Failed ==> final(s).send_buf.spec_len() == 0 && final(s).send_buf.slices().len() == 0,
        !(r is Queued) ==> final(qm)@ == old(qm)@,
        final(s).state == old(s).state,
        final(s).recv_buf == old(s).recv_buf,
        old(s).in_fallback_state ==> final(s).in_fallback_state && !(r is Queued)
            && !(r is QueueFull),
        r is Fallback ==> final(s).in_fallback_state,
{
}

/// What the queue had no room for is sent by the first of the next tries that finds room, as the
/// first would have sent it. It is given up only where the stream was closed meanwhile, and the last
/// of the tries says that the queue is full.
pub proof fn law_full_queue_is_tried_again(
    s: &mut Stream,
    bm: &BufferManager,
    m: &mut [u8],
    queue: &Queue,
    qm: &mut [u8],
    wakeup: &Wakeup,
    stats: &mut Stats,
    tries: u32,
    closed: bool,
    r: FlushStep,
)
    requires
        call_ensures(Stream::retry_flush, (s, bm, m, queue, qm, wakeup, stats, tries, closed), r),
        old(s).send_buf.slices().len() > 0,
    ensures
        r is Queued <==> !closed && queue.elements(old(qm)@).len() < queue.capacity(),
        r is Queued ==> {
            &&& queue.elements(final(qm)@) == queue.elements(old(qm)@).push(
                QueueElement {
                    seq_id: old(s).id,
                    offset_in_shm_buf: old(s).send_buf.slices()[0].offset_in_shm,
                    status: 0,
                },
            )
            &&& final(m)@ == old(m)@
            &&& final(s).send_buf.spec_len() == 0
        },
        closed <==> r == FlushStep::Failed(Error::StreamClosed),
        !(r is Queued) ==> final(qm)@ == old(qm)@,
        r is QueueFull ==> tries < 9,
        r == FlushStep::Failed(Error::QueueFull) ==> tries >= 9,
        !closed && !(r is Queued) ==> (r is QueueFull || r == FlushStep::Failed(Error::QueueFull))
            && *final(s) == *old(s) && final(m)@ == old(m)@,
        final(s).recv_buf == old(s).recv_buf,
        final(s).pending_data == old(s).pending_data,
{
}

/// Bytes that are reserved are as many as were asked for, and whatever is put there is what is
/// written, behind what was written before.
pub proof fn law_reserved_bytes_are_written(
    s: &mut Stream,
    bm: &BufferManager,
    m: &mut [u8],
    size: usize,
    r: Result<&mut [u8], Error>,
)
    requires
        call_ensures(Stream::reserve, (s, bm, m, size), r),
    ensures
        r is Ok <==> size <= u32::MAX,
        r is Err ==> r->Err_0 is NoMoreBuffer && *final(s) == *old(s) && final(m)@ == old(m)@,
        r is Ok ==> r->Ok_0@.len() == size,
        r is Ok && final(r->Ok_0)@.len() == size ==> {
            &&& final(s).send_buf.content(final(m)@) =~= old(s).send_buf.content(old(m)@)
                + final(r->Ok_0)@
            &&& final(s).recv_buf.content(final(m)@) == old(s).recv_buf.content(old(m)@)
            &&& final(s).state == old(s).state
        },
{
}

/// A flush counts what it does and nothing else: the bytes, whether they went over the connection,
/// whether the queue was full and whether the peer was woken. A try after that counts no bytes again.
pub proof fn law_flush_counts_what_it_does(
    s: &mut Stream,
    bm: &BufferManager,
    m: &mut [u8],
    queue: &Queue,
    qm: &mut [u8],
    wakeup: &Wakeup,
    stats: &mut Stats,
    end_stream: bool,
    r: FlushStep,
    again: &mut Stream,
    n: &mut [u8],
    qn: &mut [u8],
    counts: &mut Stats,
    tries: u32,
    closed: bool,
    q: FlushStep,
)
    requires
        call_ensures(Stream::flush, (s, bm, m, queue, qm, wakeup, stats, end_stream), r),
        call_ensures(
            Stream::retry_flush,
            (again, bm, n, queue, qn, wakeup, counts, tries, closed),
            q,
        ),
    ensures
        *final(stats) == (Stats {
            out_flow_bytes: if r is Empty {
                old(stats).out_flow_bytes
            } else {
                stats::wrap_add(old(stats).out_flow_bytes, old(s).send_buf.spec_len() as u64)
            },
            fallback_write_count: if r is Fallback {
                stats::wrap_add(old(stats).fallback_write_count, 1)
            } else {
                old(stats).fallback_write_count
            },
            queue_full_error_count: if r is QueueFull {
                stats::wrap_add(old(stats).queue_full_error_count, 1)
            } else {
                old(stats).queue_full_error_count
            },
            send_polling_event_count: if r is Queued && !(r->Queued_0 is Nothing) {
                stats::wrap_add(old(stats).send_polling_event_count, 1)
            } else {
                old(stats).send_polling_event_count
            },
            ..*old(stats)
        }),
        *final(counts) == (Stats {
            send_polling_event_count: if q is Queued && !(q->Queued_0 is Nothing) {
                stats::wrap_add(old(counts).send_polling_event_count, 1)
            } else {
                old(counts).send_polling_event_count
            },
            ..*old(counts)
        }),
{
}

/// No buffer is lost over a flush: what the stream held before and does not hold after went to the
/// peer, or else is free.
pub proof fn law_flush_loses_no_buffer(
    s: &mut Stream,
    bm: &BufferManager,
    m: &mut [u8],
    queue: &Queue,
    qm: &mut [u8],
    wakeup: &Wakeup,
    stats: &mut Stats,
    end_stream: bool,
    r: FlushStep,
    o: int,
)
    requires
        call_ensures(Stream::flush, (s, bm, m, queue, qm, wakeup, stats, end_stream), r),
        old(s).send_buf.wf(*bm, old(m)@),
        old(s).owned(*bm, old(m)@).contains(o),
        !final(s).owned(*bm, final(m)@).contains(o),
        bm.is_allocated(final(m)@, o),
    ensures
        r is Queued,
        linked::cells(old(s).send_buf.slices()).contains(o),
{
    if r is Queued {
        let ss = sent(old(s).send_buf);
        assert(linked::cells(ss).contains(o));
        let i = choose|i: int| #[trigger] linked::cell_at(ss, i, o);
        assert(linked::cell_at(old(s).send_buf.slices(), i, o));
    }
}

} // verus!
