//! How the peer learns that the queue holds something.

use vstd::prelude::*;

use crate::consts::HEADER_SIZE;
use crate::protocol::event;
use crate::protocol::event::EventType;
use crate::protocol::header;
use crate::protocol::negotiation::NegotiatedFeature;
use crate::mem;
use crate::queue::{Queue, QueueElement};
use crate::stats;
use crate::stats::Stats;

verus! {

/// What wakes the peer.
#[derive(Debug)]
pub enum WakeUp {
    /// Nothing is needed: the peer looks by itself or is at work already.
    Nothing,
    /// A write to the eventfd.
    EventFd,
    /// A message over the connection.
    Send(Vec<u8>),
}

/// How a session wakes its peer.
#[derive(Clone, Copy, Debug)]
pub struct Wakeup {
    pub feature: NegotiatedFeature,
    pub has_eventfd: bool,
    pub msg_version: u8,
}

impl Wakeup {
    /// The peer has to be woken.
    pub open spec fn is_due(self, queue: Queue, m: Seq<u8>) -> bool {
        !(self.feature is EventQueuePolling) && queue.working_flag(m) == 0
    }

    /// What wakes the peer.
    pub open spec fn is_for(self, r: WakeUp, queue: Queue, m: Seq<u8>) -> bool {
        if !self.is_due(queue, m) {
            r is Nothing
        } else if self.has_eventfd {
            r is EventFd
        } else {
            r is Send && r->Send_0@ == header::frame(
                HEADER_SIZE as u32,
                self.msg_version,
                EventType::TYPE_POLLING,
            )
        }
    }

    /// The counters after the peer was woken.
    pub open spec fn counted(self, s: Stats, queue: Queue, m: Seq<u8>) -> Stats {
        if self.is_due(queue, m) {
            Stats { send_polling_event_count: stats::wrap_add(s.send_polling_event_count, 1), ..s }
        } else {
            s
        }
    }

    /// On the way from `a` to `b` the element was put into the queue, and `r` wakes the peer. The
    /// queue is marked as worked on where the peer has to be woken. What lies in front of the queue
    /// and behind it stays.
    pub open spec fn announced(
        self,
        r: WakeUp,
        queue: Queue,
        a: Seq<u8>,
        b: Seq<u8>,
        element: QueueElement,
    ) -> bool {
        &&& self.is_for(r, queue, a)
        &&& b.len() == a.len()
        &&& queue.elements(b) == queue.elements(a).push(element)
        &&& queue.head(b) == queue.head(a)
        &&& queue.tail(b) == queue.tail(a) + 1
        &&& queue.working_flag(b) == if self.is_due(queue, a) {
            1u32
        } else {
            queue.working_flag(a)
        }
        &&& mem::u32_at(b, queue.base()) == mem::u32_at(a, queue.base())
        &&& mem::same_range(a, b, 0, queue.base())
        &&& mem::same_range(a, b, queue.end(), a.len() as int)
    }

    /// Puts an element into the queue and wakes the peer, if there is room.
    pub(crate) fn announce(
        &self,
        queue: &Queue,
        queue_mem: &mut [u8],
        element: QueueElement,
        stats: &mut Stats,
    ) -> (r: Option<WakeUp>)
        requires
            queue.wf(old(queue_mem)@),
            queue.tail(old(queue_mem)@) < i64::MAX,
            self.msg_version <= 3,
        ensures
            queue.wf(final(queue_mem)@),
            r is Some <==> queue.elements(old(queue_mem)@).len() < queue.capacity(),
            match r {
                Some(w) => {
                    &&& self.announced(w, *queue, old(queue_mem)@, final(queue_mem)@, element)
                    &&& *final(stats) == self.counted(*old(stats), *queue, old(queue_mem)@)
                },
                None => {
                    &&& final(queue_mem)@ == old(queue_mem)@
                    &&& *final(stats) == *old(stats)
                },
            },
    {
        match queue.put(queue_mem, element) {
            Ok(_) => {
                let ghost m1 = queue_mem@;
                let w = self.wake_up_peer(queue, queue_mem, stats);
                proof {
                    mem::lemma_u32_at_same(m1, queue_mem@, queue.base());
                }
                Some(w)
            },
            Err(_) => None,
        }
    }

    /// Wakes the peer, unless it looks by itself or is at work already.
    pub fn wake_up_peer(&self, queue: &Queue, queue_mem: &mut [u8], stats: &mut Stats) -> (r:
        WakeUp)
        requires
            queue.wf(old(queue_mem)@),
            self.msg_version <= 3,
        ensures
            self.is_for(r, *queue, old(queue_mem)@),
            *final(stats) == self.counted(*old(stats), *queue, old(queue_mem)@),
            queue.wf(final(queue_mem)@),
            queue.changed_flag_only(old(queue_mem)@, final(queue_mem)@),
            self.is_due(*queue, old(queue_mem)@) ==> queue.working_flag(final(queue_mem)@) == 1,
            !self.is_due(*queue, old(queue_mem)@) ==> final(queue_mem)@ == old(queue_mem)@,
    {
        if matches!(self.feature, NegotiatedFeature::EventQueuePolling { .. }) {
            return WakeUp::Nothing;
        }
        if !queue.mark_working(queue_mem) {
            return WakeUp::Nothing;
        }
        stats::count(&mut stats.send_polling_event_count, 1);
        if self.has_eventfd {
            return WakeUp::EventFd;
        }
        WakeUp::Send(event::polling_event_with_version(self.msg_version))
    }
}

impl Wakeup {
    /// No wakeup is lost: whoever put something into the queue and woke the peer leaves a queue
    /// behind whose consumer is at work, whatever was in the queue before.
    pub proof fn law_no_wakeup_is_lost(
        self,
        r: WakeUp,
        queue: Queue,
        a: Seq<u8>,
        b: Seq<u8>,
        element: QueueElement,
    )
        requires
            !(self.feature is EventQueuePolling),
            self.announced(r, queue, a, b, element),
        ensures
            queue.working_flag(b) != 0,
    {
    }

    /// The queue region goes from `a` to `b` without the consumer going to sleep: something was put
    /// into the queue and announced, or else the working flag stayed.
    pub open spec fn goes_on(self, queue: Queue, a: Seq<u8>, b: Seq<u8>) -> bool {
        ||| queue.working_flag(b) == queue.working_flag(a)
        ||| exists|r: WakeUp, e: QueueElement| #[trigger] self.announced(r, queue, a, b, e)
    }

    /// One wakeup serves a batch: after something was announced, nothing else is sent until the
    /// consumer goes to sleep, however much is put into the queue and taken out of it.
    pub proof fn law_one_wakeup_for_a_batch(
        self,
        r: WakeUp,
        queue: Queue,
        m: Seq<u8>,
        element: QueueElement,
        ms: Seq<Seq<u8>>,
        n: int,
    )
        requires
            !(self.feature is EventQueuePolling),
            0 <= n < ms.len(),
            self.announced(r, queue, m, ms[0], element),
            forall|i: int, j: int|
                0 <= i < n && j == i + 1 ==> self.goes_on(
                    queue,
                    #[trigger] ms[i],
                    #[trigger] ms[j],
                ),
        ensures
            queue.working_flag(ms[n]) != 0,
            forall|w: WakeUp, b: Seq<u8>, e: QueueElement| #[trigger]
                self.announced(w, queue, ms[n], b, e) ==> w is Nothing,
        decreases n,
    {
        if n > 0 {
            self.law_one_wakeup_for_a_batch(r, queue, m, element, ms, n - 1);
            assert(self.goes_on(queue, ms[n - 1], ms[n]));
        }
    }

    /// What is put into the queue of one direction and announced leaves the other as it is.
    pub proof fn law_other_queue_stays(
        self,
        r: WakeUp,
        queue: Queue,
        other: Queue,
        a: Seq<u8>,
        b: Seq<u8>,
        element: QueueElement,
    )
        requires
            self.announced(r, queue, a, b, element),
            other.wf(a),
            other.end() <= queue.base() || queue.end() <= other.base(),
        ensures
            other.wf(b),
            other.elements(b) == other.elements(a),
            other.head(b) == other.head(a),
            other.tail(b) == other.tail(a),
            other.working_flag(b) == other.working_flag(a),
    {
        other.law_untouched_queue_stays(a, b);
    }
}

/// The peer is woken exactly where it is not at work and does not look by itself: by the eventfd
/// where there is one, and by a message otherwise. Then it counts as at work, so that nobody wakes
/// it again, and nothing else of the region changes.
pub proof fn law_peer_is_woken_where_it_sleeps(
    w: Wakeup,
    queue: &Queue,
    m: &mut [u8],
    stats: &mut Stats,
    r: WakeUp,
)
    requires
        call_ensures(Wakeup::wake_up_peer, (&w, queue, m, stats), r),
    ensures
        r is Nothing <==> w.feature is EventQueuePolling || queue.working_flag(old(m)@) != 0,
        !(r is Nothing) ==> (r is EventFd <==> w.has_eventfd),
        r is Send ==> r->Send_0@ == header::frame(8, w.msg_version, 1),
        !(w.feature is EventQueuePolling) ==> queue.working_flag(final(m)@) != 0,
        queue.elements(final(m)@) == queue.elements(old(m)@),
        r is Nothing ==> final(m)@ == old(m)@ && *final(stats) == *old(stats),
        !(r is Nothing) ==> *final(stats) == (Stats {
            send_polling_event_count: stats::wrap_add(old(stats).send_polling_event_count, 1),
            ..*old(stats)
        }),
{
}

/// Of two who wake the peer one after the other only the first does, until the peer went to sleep
/// again, which it does only where the queue is empty.
pub proof fn law_second_wakeup_is_spared(
    w: Wakeup,
    queue: &Queue,
    a: &mut [u8],
    b: &mut [u8],
    c: &mut [u8],
    d: &mut [u8],
    s: &mut Stats,
    t: &mut Stats,
    u: &mut Stats,
    first: WakeUp,
    second: WakeUp,
    slept: bool,
    third: WakeUp,
)
    requires
        !(w.feature is EventQueuePolling),
        call_ensures(Wakeup::wake_up_peer, (&w, queue, a, s), first),
        old(b)@ == final(a)@,
        call_ensures(Wakeup::wake_up_peer, (&w, queue, b, t), second),
        old(c)@ == final(b)@,
        call_ensures(Queue::mark_not_working, (queue, c), slept),
        old(d)@ == final(c)@,
        call_ensures(Wakeup::wake_up_peer, (&w, queue, d, u), third),
    ensures
        second is Nothing,
        slept <==> queue.elements(old(a)@).len() == 0,
        slept ==> !(third is Nothing),
        !slept ==> third is Nothing,
{
    law_peer_is_woken_where_it_sleeps(w, queue, a, s, first);
    law_peer_is_woken_where_it_sleeps(w, queue, b, t, second);
    law_peer_is_woken_where_it_sleeps(w, queue, d, u, third);
}

} // verus!
