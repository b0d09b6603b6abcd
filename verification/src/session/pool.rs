//! The idle streams of a session, by their ids.

use crossbeam_queue::ArrayQueue;
use vstd::prelude::*;

use crate::error::Error;
use crate::outside;

verus! {

/// Idle streams that wait to be used again, the longest idle one first.
pub struct StreamPool {
    streams: ArrayQueue<u32>,
}

impl StreamPool {
    /// The ids of the idle streams, in the order in which they came.
    pub closed spec fn view(&self) -> Seq<u32> {
        outside::array_queue_content(self.streams)
    }

    /// The most streams that are kept.
    pub closed spec fn capacity(&self) -> nat {
        outside::array_queue_capacity(self.streams)
    }

    pub fn new(pool_capacity: usize) -> (r: Self)
        requires
            0 < pool_capacity,
            pool_capacity * 16 <= isize::MAX,
        ensures
            r@ == Seq::<u32>::empty(),
            r.capacity() == pool_capacity,
    {
        StreamPool { streams: outside::array_queue_new(pool_capacity) }
    }

    /// Keeps a stream, unless there are as many as the pool holds: that one is to be closed.
    pub fn push(&mut self, stream: u32) -> (r: Result<(), Error>)
        ensures
            final(self).capacity() == old(self).capacity(),
            old(self)@.len() < old(self).capacity() ==> {
                &&& r is Ok
                &&& final(self)@ == old(self)@.push(stream)
            },
            old(self)@.len() >= old(self).capacity() ==> {
                &&& r == Err::<(), Error>(Error::StreamPoolFull)
                &&& final(self)@ == old(self)@
            },
    {
        match outside::array_queue_push(&mut self.streams, stream) {
            Ok(_) => Ok(()),
            Err(_) => Err(Error::StreamPoolFull),
        }
    }

    /// Takes the stream that was kept the longest.
    pub fn pop(&mut self) -> (r: Option<u32>)
        ensures
            final(self).capacity() == old(self).capacity(),
            match r {
                Some(id) => {
                    &&& old(self)@.len() > 0
                    &&& id == old(self)@[0]
                    &&& final(self)@ == old(self)@.skip(1)
                },
                None => old(self)@.len() == 0 && final(self)@ == old(self)@,
            },
    {
        outside::array_queue_pop(&mut self.streams)
    }

    /// Takes all streams, in the order in which they came: they are to be closed.
    pub fn close(&mut self) -> (r: Vec<u32>)
        ensures
            r@ == old(self)@,
            final(self)@ == Seq::<u32>::empty(),
            final(self).capacity() == old(self).capacity(),
    {
        let mut ids: Vec<u32> = Vec::new();
        loop
            invariant
                ids@ + self@ == old(self)@,
                self.capacity() == old(self).capacity(),
            ensures
                ids@ == old(self)@,
                self@.len() == 0,
                self.capacity() == old(self).capacity(),
            decreases self@.len(),
        {
            let ghost before = self@;
            match self.pop() {
                Some(id) => {
                    ids.push(id);
                    assert(ids@ + self@ =~= old(self)@);
                },
                None => {
                    assert(ids@ =~= ids@ + self@);
                    break;
                },
            }
        }
        assert(self@ =~= Seq::<u32>::empty());
        ids
    }
}

/// A pool gives its streams out in the order in which they came, keeps no more than it has room
/// for, and hands all that are left over when it is closed.
pub proof fn law_longest_idle_comes_first(
    a: &mut StreamPool,
    x: u32,
    b: &mut StreamPool,
    y: u32,
    c: &mut StreamPool,
    d: &mut StreamPool,
    kept: (Result<(), Error>, Result<(), Error>),
    first: Option<u32>,
    rest: Vec<u32>,
)
    requires
        call_ensures(StreamPool::push, (a, x), kept.0),
        *old(b) == *final(a),
        call_ensures(StreamPool::push, (b, y), kept.1),
        *old(c) == *final(b),
        call_ensures(StreamPool::pop, (c,), first),
        *old(d) == *final(c),
        call_ensures(StreamPool::close, (d,), rest),
    ensures
        kept.0 is Ok <==> old(a)@.len() < old(a).capacity(),
        kept.0 is Err ==> kept.1 is Err && final(b)@ == old(a)@,
        kept.0 is Err ==> kept.0->Err_0 is StreamPoolFull,
        old(a)@.len() + 2 <= old(a).capacity() ==> {
            &&& kept.1 is Ok
            &&& first is Some
            &&& old(a)@.len() == 0 ==> first->0 == x && rest@ =~= seq![y]
            &&& old(a)@.len() > 0 ==> first->0 == old(a)@[0] && rest@ =~= old(a)@.skip(1) + seq![
                x,
                y,
            ]
        },
        final(d)@.len() == 0,
{
}

/// A new pool is empty, and an empty pool gives nothing.
pub proof fn law_empty_pool_gives_nothing(
    capacity: usize,
    a: &mut StreamPool,
    r: Option<u32>,
)
    requires
        call_ensures(StreamPool::new, (capacity,), *old(a)),
        call_ensures(StreamPool::pop, (a,), r),
    ensures
        r is None,
        final(a).capacity() == capacity,
{
}

} // verus!
