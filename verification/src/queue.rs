//! The IO queue: a ring of elements in shared memory that one side fills and the other drains.

use vstd::arithmetic::div_mod::{lemma_fundamental_div_mod, lemma_mod_bound};
use vstd::prelude::*;

use crate::consts::{MemMapType, QUEUE_COUNT, QUEUE_ELEMENT_LEN};
use crate::error::Error;
use crate::mem;

verus! {

/// The bytes in front of the elements: capacity 4, working flag 4, head 8, tail 8.
pub const QUEUE_HEADER_LENGTH: usize = 24;

/// Where the words of a queue header stand.
#[derive(Clone, Copy, Debug, PartialEq, Eq, Structural)]
pub enum QueueLayout {
    /// Capacity, head, tail, working flag, with positions that are not aligned.
    Legacy,
    /// Capacity, working flag, head, tail, with positions aligned to eight bytes.
    Aligned,
}

impl QueueLayout {
    /// The layout of a protocol version on a target that takes unaligned positions.
    pub fn for_protocol_version(version: u8) -> (r: Self)
        ensures
            r == if version >= 4 {
                QueueLayout::Aligned
            } else {
                QueueLayout::Legacy
            },
    {
        Self::for_target(version, false)
    }

    /// The layout of a protocol version; a target that insists on aligned positions gets the
    /// aligned layout whatever the version.
    pub fn for_target(version: u8, needs_alignment: bool) -> (r: Self)
        ensures
            r == if version >= 4 || needs_alignment {
                QueueLayout::Aligned
            } else {
                QueueLayout::Legacy
            },
    {
        if version >= 4 || needs_alignment {
            QueueLayout::Aligned
        } else {
            QueueLayout::Legacy
        }
    }

    pub open spec fn spec_working_flag_offset(self) -> usize {
        match self {
            QueueLayout::Legacy => 20,
            QueueLayout::Aligned => 4,
        }
    }

    pub open spec fn spec_head_offset(self) -> usize {
        match self {
            QueueLayout::Legacy => 4,
            QueueLayout::Aligned => 8,
        }
    }

    pub open spec fn spec_tail_offset(self) -> usize {
        match self {
            QueueLayout::Legacy => 12,
            QueueLayout::Aligned => 16,
        }
    }

    #[verifier::when_used_as_spec(spec_working_flag_offset)]
    pub fn working_flag_offset(self) -> (r: usize)
        ensures
            r == self.spec_working_flag_offset(),
    {
        match self {
            QueueLayout::Legacy => 20,
            QueueLayout::Aligned => 4,
        }
    }

    #[verifier::when_used_as_spec(spec_head_offset)]
    pub fn head_offset(self) -> (r: usize)
        ensures
            r == self.spec_head_offset(),
    {
        match self {
            QueueLayout::Legacy => 4,
            QueueLayout::Aligned => 8,
        }
    }

    #[verifier::when_used_as_spec(spec_tail_offset)]
    pub fn tail_offset(self) -> (r: usize)
        ensures
            r == self.spec_tail_offset(),
    {
        match self {
            QueueLayout::Legacy => 12,
            QueueLayout::Aligned => 16,
        }
    }
}

/// One entry of the queue: which stream, where its data starts, and the state of the stream.
#[derive(Clone, Copy, Debug, PartialEq, Eq, Structural)]
pub struct QueueElement {
    pub seq_id: u32,
    pub offset_in_shm_buf: u32,
    pub status: u32,
}

/// A queue inside a region, found by the position of its header.
#[derive(Clone, Copy, Debug)]
pub struct Queue {
    base: usize,
    cap: i64,
    layout: QueueLayout,
}

/// The bytes that a queue of `queue_cap` elements takes.
pub open spec fn queue_mem_size(queue_cap: int) -> int {
    QUEUE_HEADER_LENGTH + QUEUE_ELEMENT_LEN * queue_cap
}

/// The bytes that a queue of `queue_cap` elements takes.
pub fn count_queue_mem_size(queue_cap: u32) -> (r: usize)
    requires
        queue_mem_size(queue_cap as int) <= usize::MAX,
    ensures
        r == queue_mem_size(queue_cap as int),
{
    QUEUE_HEADER_LENGTH + QUEUE_ELEMENT_LEN * (queue_cap as usize)
}

/// Distinct positions less than one lap apart take distinct slots.
proof fn lemma_slots_distinct(a: int, b: int, cap: int)
    requires
        0 <= a < b < a + cap,
    ensures
        a % cap != b % cap,
{
    lemma_fundamental_div_mod(a, cap);
    lemma_fundamental_div_mod(b, cap);
    if a % cap == b % cap {
        assert(b - a == cap * (b / cap) - cap * (a / cap));
        assert(cap * (b / cap) - cap * (a / cap) == cap * (b / cap - a / cap)) by (nonlinear_arith);
        let k = b / cap - a / cap;
        assert(false) by (nonlinear_arith)
            requires
                0 < cap * k < cap,
        ;
    }
}

impl Queue {
    /// Where the header stands in the region.
    pub closed spec fn base(self) -> int {
        self.base as int
    }

    /// How many elements fit.
    pub closed spec fn capacity(self) -> int {
        self.cap as int
    }

    /// Where the words of the header stand.
    pub closed spec fn layout(self) -> QueueLayout {
        self.layout
    }

    /// One past the last byte of the queue.
    pub open spec fn end(self) -> int {
        self.base() + queue_mem_size(self.capacity())
    }

    /// The position of the next element to take out.
    pub open spec fn head(self, m: Seq<u8>) -> int {
        mem::u64_at(m, self.base() + self.layout().head_offset()) as int
    }

    /// The position of the next element to put in.
    pub open spec fn tail(self, m: Seq<u8>) -> int {
        mem::u64_at(m, self.base() + self.layout().tail_offset()) as int
    }

    /// The working flag: whether the consumer is taking elements out.
    pub open spec fn working_flag(self, m: Seq<u8>) -> u32 {
        mem::u32_at(m, self.base() + self.layout().working_flag_offset())
    }

    /// The element in slot `slot` of the ring.
    pub open spec fn slot(self, m: Seq<u8>, slot: int) -> QueueElement {
        let o = self.base() + QUEUE_HEADER_LENGTH + QUEUE_ELEMENT_LEN * slot;
        QueueElement {
            seq_id: mem::u32_at(m, o),
            offset_in_shm_buf: mem::u32_at(m, o + 4),
            status: mem::u32_at(m, o + 8),
        }
    }

    /// The elements that the queue holds, oldest first.
    pub open spec fn elements(self, m: Seq<u8>) -> Seq<QueueElement> {
        Seq::new(
            (self.tail(m) - self.head(m)) as nat,
            |k: int| self.slot(m, (self.head(m) + k) % self.capacity()),
        )
    }

    /// The queue lies inside the region.
    pub open spec fn fits(self, m: Seq<u8>) -> bool {
        &&& 0 <= self.capacity() <= u32::MAX
        &&& 0 <= self.base()
        &&& self.end() <= m.len()
        &&& m.len() <= usize::MAX
    }

    /// The queue lies inside the region and its positions are in order.
    pub open spec fn wf(self, m: Seq<u8>) -> bool {
        &&& self.fits(m)
        &&& self.head(m) <= self.tail(m) <= i64::MAX
        &&& self.tail(m) - self.head(m) <= self.capacity()
    }

    /// Sets up an empty queue of `cap` elements at `base` and returns a handle on it.
    pub fn create_from_bytes(mem: &mut [u8], base: usize, cap: u32, layout: QueueLayout) -> (r:
        Self)
        requires
            base + queue_mem_size(cap as int) <= old(mem)@.len(),
        ensures
            r.base() == base,
            r.capacity() == cap,
            r.layout() == layout,
            r.wf(final(mem)@),
            r.elements(final(mem)@) == Seq::<QueueElement>::empty(),
            r.head(final(mem)@) == 0,
            r.working_flag(final(mem)@) == 0,
            mem::u32_at(final(mem)@, base as int) == cap,
            final(mem)@.len() == old(mem)@.len(),
            forall|i: int|
                0 <= i < old(mem)@.len() && !(base <= i < base + QUEUE_HEADER_LENGTH)
                    ==> #[trigger] final(mem)@[i] == old(mem)@[i],
    {
        broadcast use mem::group_mem;

        assert(mem@.len() == mem.len());
        mem::set_u32(mem, base, cap);
        let q = Self::mapping_from_bytes(mem, base, layout);
        q.store_head(mem, 0);
        q.store_tail(mem, 0);
        mem::set_u32(mem, base + layout.working_flag_offset(), 0);
        assert(mem@.len() == mem.len());
        assert(q.elements(mem@) =~= Seq::<QueueElement>::empty());
        q
    }

    /// A handle on the queue whose header stands at `base`. The capacity is read from the header.
    pub fn mapping_from_bytes(mem: &[u8], base: usize, layout: QueueLayout) -> (r: Self)
        requires
            base + QUEUE_HEADER_LENGTH <= mem@.len(),
        ensures
            r.base() == base,
            r.capacity() == mem::u32_at(mem@, base as int),
            r.layout() == layout,
    {
        let cap: u32 = mem::get_u32(mem, base);
        Queue { base, cap: cap as i64, layout }
    }

    /// Whether the queue lies inside the region and its positions are in order. It is so of a queue
    /// that was set up here; of one that a peer set up it is to be tested.
    pub fn is_in_order(&self, mem: &[u8]) -> (r: bool)
        ensures
            r == self.wf(mem@),
    {
        let len: usize = mem.len();
        if self.cap < 0 || self.cap > u32::MAX as i64 {
            return false;
        }
        let size: u128 = QUEUE_HEADER_LENGTH as u128 + QUEUE_ELEMENT_LEN as u128
            * self.cap as u128;
        if self.base as u128 + size > len as u128 {
            return false;
        }
        let head: u64 = mem::get_u64(mem, self.base + self.layout.head_offset());
        let tail: u64 = mem::get_u64(mem, self.base + self.layout.tail_offset());
        head <= tail && tail <= i64::MAX as u64 && tail - head <= self.cap as u64
    }

    /// Appends an element, unless the queue is full.
    pub fn put(&self, mem: &mut [u8], element: QueueElement) -> (r: Result<(), Error>)
        requires
            self.wf(old(mem)@),
            self.tail(old(mem)@) < i64::MAX,
        ensures
            self.wf(final(mem)@),
            final(mem)@.len() == old(mem)@.len(),
            r is Ok <==> self.elements(old(mem)@).len() < self.capacity(),
            r matches Err(e) ==> e == Error::QueueFull && final(mem)@ == old(mem)@,
            r is Ok ==> {
                &&& self.elements(final(mem)@) == self.elements(old(mem)@).push(element)
                &&& self.tail(final(mem)@) == self.tail(old(mem)@) + 1
            },
            self.head(final(mem)@) == self.head(old(mem)@),
            self.working_flag(final(mem)@) == self.working_flag(old(mem)@),
            mem::same_range(old(mem)@, final(mem)@, 0, self.base()),
            mem::same_range(old(mem)@, final(mem)@, self.end(), old(mem)@.len() as int),
            mem::u32_at(final(mem)@, self.base()) == mem::u32_at(old(mem)@, self.base()),
    {
        broadcast use mem::group_mem;

        let ghost m0 = mem@;
        let tail: i64 = self.load_tail(mem);
        let head: i64 = self.load_head(mem);
        if tail - head >= self.cap {
            return Err(Error::QueueFull);
        }
        let slot: usize = (tail % self.cap) as usize;
        proof {
            lemma_mod_bound(tail as int, self.cap as int);
            assert(QUEUE_ELEMENT_LEN * slot + QUEUE_ELEMENT_LEN <= QUEUE_ELEMENT_LEN * self.cap)
                by (nonlinear_arith)
                requires
                    0 <= slot < self.cap,
                    QUEUE_ELEMENT_LEN == 12,
            ;
        }
        let o: usize = self.base + QUEUE_HEADER_LENGTH + QUEUE_ELEMENT_LEN * slot;
        mem::set_u32(mem, o, element.seq_id);
        mem::set_u32(mem, o + 4, element.offset_in_shm_buf);
        mem::set_u32(mem, o + 8, element.status);
        let ghost m1 = mem@;
        self.store_tail(mem, tail + 1);
        proof {
            let cap = self.capacity();
            assert forall|k: int| 0 <= k <= tail - head implies #[trigger] self.slot(
                mem@,
                (head + k) % cap,
            ) == (if k < tail - head {
                self.slot(m0, (head + k) % cap)
            } else {
                element
            }) by {
                let s = (head + k) % cap;
                lemma_mod_bound(head + k, cap);
                if k < tail - head {
                    lemma_slots_distinct(head + k, tail as int, cap);
                }
                let p = self.base + QUEUE_HEADER_LENGTH + QUEUE_ELEMENT_LEN * s;
                assert(QUEUE_ELEMENT_LEN * s + QUEUE_ELEMENT_LEN <= QUEUE_ELEMENT_LEN * cap)
                    by (nonlinear_arith)
                    requires
                        0 <= s < cap,
                        QUEUE_ELEMENT_LEN == 12,
                ;
                assert(s < slot ==> QUEUE_ELEMENT_LEN * s + QUEUE_ELEMENT_LEN <= QUEUE_ELEMENT_LEN
                    * slot);
                assert(s > slot ==> QUEUE_ELEMENT_LEN * slot + QUEUE_ELEMENT_LEN
                    <= QUEUE_ELEMENT_LEN * s);
            }
            assert(self.elements(mem@) =~= self.elements(m0).push(element));
        }
        Ok(())
    }

    /// Takes out the oldest element, unless the queue is empty.
    pub fn pop(&self, mem: &mut [u8]) -> (r: Result<QueueElement, Error>)
        requires
            self.wf(old(mem)@),
        ensures
            self.wf(final(mem)@),
            final(mem)@.len() == old(mem)@.len(),
            r is Ok <==> self.elements(old(mem)@).len() > 0,
            r matches Err(e) ==> e == Error::QueueEmpty && final(mem)@ == old(mem)@,
            r matches Ok(e) ==> {
                &&& e == self.elements(old(mem)@)[0]
                &&& self.elements(final(mem)@) == self.elements(old(mem)@).skip(1)
                &&& self.head(final(mem)@) == self.head(old(mem)@) + 1
            },
            self.tail(final(mem)@) == self.tail(old(mem)@),
            self.working_flag(final(mem)@) == self.working_flag(old(mem)@),
            mem::same_range(old(mem)@, final(mem)@, 0, self.base()),
            mem::same_range(old(mem)@, final(mem)@, self.end(), old(mem)@.len() as int),
            mem::u32_at(final(mem)@, self.base()) == mem::u32_at(old(mem)@, self.base()),
    {
        broadcast use mem::group_mem;

        let ghost m0 = mem@;
        let head: i64 = self.load_head(mem);
        let tail: i64 = self.load_tail(mem);
        if head >= tail {
            return Err(Error::QueueEmpty);
        }
        let slot: usize = (head % self.cap) as usize;
        proof {
            lemma_mod_bound(head as int, self.cap as int);
            assert(QUEUE_ELEMENT_LEN * slot + QUEUE_ELEMENT_LEN <= QUEUE_ELEMENT_LEN * self.cap)
                by (nonlinear_arith)
                requires
                    0 <= slot < self.cap,
                    QUEUE_ELEMENT_LEN == 12,
            ;
        }
        let o: usize = self.base + QUEUE_HEADER_LENGTH + QUEUE_ELEMENT_LEN * slot;
        let element = QueueElement {
            seq_id: mem::get_u32(mem, o),
            offset_in_shm_buf: mem::get_u32(mem, o + 4),
            status: mem::get_u32(mem, o + 8),
        };
        self.store_head(mem, head + 1);
        proof {
            let cap = self.capacity();
            assert(element == self.elements(m0)[0]);
            assert forall|k: int| 0 <= k < tail - head - 1 implies #[trigger] self.slot(
                mem@,
                (head + 1 + k) % cap,
            ) == self.slot(m0, (head + (k + 1)) % cap) by {
                let s = (head + 1 + k) % cap;
                lemma_mod_bound(head + 1 + k, cap);
                assert(QUEUE_ELEMENT_LEN * s + QUEUE_ELEMENT_LEN <= QUEUE_ELEMENT_LEN * cap)
                    by (nonlinear_arith)
                    requires
                        0 <= s < cap,
                        QUEUE_ELEMENT_LEN == 12,
                ;
            }
            assert(self.elements(mem@) =~= self.elements(m0).skip(1));
        }
        Ok(element)
    }

    /// Whether every slot is taken.
    pub fn is_full(&self, mem: &[u8]) -> (r: bool)
        requires
            self.wf(mem@),
        ensures
            r == (self.elements(mem@).len() == self.capacity()),
    {
        self.size(mem) == self.cap
    }

    /// Whether the count of elements ever put in can still grow by one.
    pub fn has_next_position(&self, mem: &[u8]) -> (r: bool)
        requires
            self.wf(mem@),
        ensures
            r == (self.tail(mem@) < i64::MAX),
    {
        self.load_tail(mem) < i64::MAX
    }

    /// Whether no slot is taken.
    pub fn is_empty(&self, mem: &[u8]) -> (r: bool)
        requires
            self.wf(mem@),
        ensures
            r == (self.elements(mem@).len() == 0),
    {
        self.size(mem) == 0
    }

    /// How many elements the queue holds.
    pub fn size(&self, mem: &[u8]) -> (r: i64)
        requires
            self.wf(mem@),
        ensures
            r == self.elements(mem@).len(),
    {
        self.load_tail(mem) - self.load_head(mem)
    }

    /// Whether the consumer is taking elements out.
    pub fn consumer_is_working(&self, mem: &[u8]) -> (r: bool)
        requires
            self.fits(mem@),
        ensures
            r == (self.working_flag(mem@) > 0),
    {
        mem::get_u32(mem, self.base + self.layout.working_flag_offset()) > 0
    }

    /// Sets the working flag; tells whether it was clear before.
    pub fn mark_working(&self, mem: &mut [u8]) -> (r: bool)
        requires
            self.wf(old(mem)@),
        ensures
            r == (self.working_flag(old(mem)@) == 0),
            !r ==> final(mem)@ == old(mem)@,
            r ==> self.working_flag(final(mem)@) == 1,
            self.changed_flag_only(old(mem)@, final(mem)@),
    {
        broadcast use mem::group_mem;

        let o: usize = self.base + self.layout.working_flag_offset();
        if mem::get_u32(mem, o) == 0 {
            mem::set_u32(mem, o, 1);
            proof {
                self.lemma_changed_flag_only(old(mem)@, mem@);
            }
            true
        } else {
            false
        }
    }

    /// Clears the working flag if the queue is empty, else leaves it set; tells whether it is
    /// clear now.
    pub fn mark_not_working(&self, mem: &mut [u8]) -> (r: bool)
        requires
            self.wf(old(mem)@),
        ensures
            r == (self.elements(old(mem)@).len() == 0),
            self.working_flag(final(mem)@) == if r {
                0u32
            } else {
                1u32
            },
            self.changed_flag_only(old(mem)@, final(mem)@),
    {
        broadcast use mem::group_mem;

        let o: usize = self.base + self.layout.working_flag_offset();
        mem::set_u32(mem, o, 0);
        proof {
            self.lemma_changed_flag_only(old(mem)@, mem@);
        }
        if self.size(mem) == 0 {
            return true;
        }
        mem::set_u32(mem, o, 1);
        proof {
            self.lemma_changed_flag_only(old(mem)@, mem@);
        }
        false
    }

    /// `b` differs from `a` at most in the working flag.
    pub open spec fn changed_flag_only(self, a: Seq<u8>, b: Seq<u8>) -> bool {
        let o = self.base() + self.layout().working_flag_offset();
        &&& a.len() == b.len()
        &&& mem::same_range(a, b, 0, o)
        &&& mem::same_range(a, b, o + 4, a.len() as int)
        &&& self.head(a) == self.head(b)
        &&& self.tail(a) == self.tail(b)
        &&& self.elements(a) == self.elements(b)
    }

    proof fn lemma_changed_flag_only(self, a: Seq<u8>, b: Seq<u8>)
        requires
            self.fits(a),
            a.len() == b.len(),
            ({
                let o = self.base() + self.layout().working_flag_offset();
                &&& mem::same_range(a, b, 0, o)
                &&& mem::same_range(a, b, o + 4, a.len() as int)
            }),
            self.wf(a),
        ensures
            self.changed_flag_only(a, b),
    {
        mem::lemma_u64_at_same(a, b, self.base() + self.layout().head_offset());
        mem::lemma_u64_at_same(a, b, self.base() + self.layout().tail_offset());
        assert forall|k: int| 0 <= k < self.tail(a) - self.head(a) implies #[trigger] self.slot(
            a,
            (self.head(a) + k) % self.capacity(),
        ) == self.slot(b, (self.head(a) + k) % self.capacity()) by {
            let s = (self.head(a) + k) % self.capacity();
            lemma_mod_bound(self.head(a) + k, self.capacity());
            let o = self.base() + QUEUE_HEADER_LENGTH + QUEUE_ELEMENT_LEN * s;
            assert(QUEUE_ELEMENT_LEN * s + QUEUE_ELEMENT_LEN <= QUEUE_ELEMENT_LEN
                * self.capacity()) by (nonlinear_arith)
                requires
                    0 <= s < self.capacity(),
                    QUEUE_ELEMENT_LEN == 12,
            ;
            mem::lemma_u32_at_same(a, b, o);
            mem::lemma_u32_at_same(a, b, o + 4);
            mem::lemma_u32_at_same(a, b, o + 8);
        }
        assert(self.elements(a) =~= self.elements(b));
    }

    /// What happens outside of a queue leaves it as it is: the queue of one direction takes no
    /// notice of what is put into or taken out of the other.
    pub proof fn law_untouched_queue_stays(self, a: Seq<u8>, b: Seq<u8>)
        requires
            self.wf(a),
            a.len() == b.len(),
            mem::same_range(a, b, self.base(), self.end()),
        ensures
            self.wf(b),
            self.elements(b) == self.elements(a),
            self.head(b) == self.head(a),
            self.tail(b) == self.tail(a),
            self.working_flag(b) == self.working_flag(a),
    {
        mem::lemma_u64_at_same(a, b, self.base() + self.layout().head_offset());
        mem::lemma_u64_at_same(a, b, self.base() + self.layout().tail_offset());
        mem::lemma_u32_at_same(a, b, self.base() + self.layout().working_flag_offset());
        assert forall|k: int| 0 <= k < self.tail(a) - self.head(a) implies #[trigger] self.slot(
            a,
            (self.head(a) + k) % self.capacity(),
        ) == self.slot(b, (self.head(a) + k) % self.capacity()) by {
            let s = (self.head(a) + k) % self.capacity();
            lemma_mod_bound(self.head(a) + k, self.capacity());
            let o = self.base() + QUEUE_HEADER_LENGTH + QUEUE_ELEMENT_LEN * s;
            assert(QUEUE_ELEMENT_LEN * s + QUEUE_ELEMENT_LEN <= QUEUE_ELEMENT_LEN
                * self.capacity()) by (nonlinear_arith)
                requires
                    0 <= s < self.capacity(),
                    QUEUE_ELEMENT_LEN == 12,
            ;
            mem::lemma_u32_at_same(a, b, o);
            mem::lemma_u32_at_same(a, b, o + 4);
            mem::lemma_u32_at_same(a, b, o + 8);
        }
        assert(self.elements(a) =~= self.elements(b));
    }

    fn load_head(&self, mem: &[u8]) -> (r: i64)
        requires
            self.wf(mem@),
        ensures
            r == self.head(mem@),
    {
        mem::get_u64(mem, self.base + self.layout.head_offset()) as i64
    }

    fn load_tail(&self, mem: &[u8]) -> (r: i64)
        requires
            self.wf(mem@),
        ensures
            r == self.tail(mem@),
    {
        mem::get_u64(mem, self.base + self.layout.tail_offset()) as i64
    }

    fn store_head(&self, mem: &mut [u8], value: i64)
        requires
            0 <= value,
            self.base() + QUEUE_HEADER_LENGTH <= old(mem)@.len() <= usize::MAX,
        ensures
            final(mem)@ == mem::put_bytes(
                old(mem)@,
                self.base() + self.layout().head_offset(),
                mem::le64(value as u64),
            ),
    {
        mem::set_u64(mem, self.base + self.layout.head_offset(), value as u64);
    }

    fn store_tail(&self, mem: &mut [u8], value: i64)
        requires
            0 <= value,
            self.base() + QUEUE_HEADER_LENGTH <= old(mem)@.len() <= usize::MAX,
        ensures
            final(mem)@ == mem::put_bytes(
                old(mem)@,
                self.base() + self.layout().tail_offset(),
                mem::le64(value as u64),
            ),
    {
        mem::set_u64(mem, self.base + self.layout.tail_offset(), value as u64);
    }
}

/// Why a queue region could not be set up or mapped.
#[derive(Clone, Copy, Debug, PartialEq, Eq, Structural)]
pub enum QueueError {
    /// The file of the region exists already.
    Existed,
    /// There is no room for a region of this many bytes.
    NoSpace(usize),
    /// The region reports a negative size.
    InvalidSize(i64),
    /// The size of an aligned region is not a multiple of sixteen.
    Unaligned,
}

/// The size of the region for two queues of `queue_cap` elements, if its file can be created.
pub fn plan_queue_file(path_exists: bool, can_create: bool, queue_cap: u32) -> (r: Result<
    usize,
    QueueError,
>)
    requires
        QUEUE_COUNT * queue_mem_size(queue_cap as int) <= usize::MAX,
    ensures
        r == if path_exists {
            Err::<usize, QueueError>(QueueError::Existed)
        } else if !can_create {
            Err(QueueError::NoSpace((QUEUE_COUNT * queue_mem_size(queue_cap as int)) as usize))
        } else {
            Ok((QUEUE_COUNT * queue_mem_size(queue_cap as int)) as usize)
        },
{
    if path_exists {
        return Err(QueueError::Existed);
    }
    let mem_size: usize = count_queue_mem_size(queue_cap) * QUEUE_COUNT;
    if !can_create {
        return Err(QueueError::NoSpace(mem_size));
    }
    Ok(mem_size)
}

/// The size to map a queue region with, from the size that the system reports.
pub fn queue_mapping_size(reported: i64, layout: QueueLayout) -> (r: Result<u64, QueueError>)
    ensures
        r == if reported < 0 {
            Err::<u64, QueueError>(QueueError::InvalidSize(reported))
        } else if layout == QueueLayout::Aligned && reported % 16 != 0 {
            Err(QueueError::Unaligned)
        } else {
            Ok(reported as u64)
        },
{
    if reported < 0 {
        return Err(QueueError::InvalidSize(reported));
    }
    let mapping_size: u64 = reported as u64;
    if layout == QueueLayout::Aligned && mapping_size % 16 != 0 {
        return Err(QueueError::Unaligned);
    }
    Ok(mapping_size)
}

/// The two queues of a session, one for each direction, in one region.
#[derive(Debug)]
pub struct QueueManager {
    pub path: String,
    pub send_queue: Queue,
    pub recv_queue: Queue,
    pub memfd: i32,
    pub mmap_map_type: MemMapType,
}

impl QueueManager {
    /// The side that set the region up: it sends on the first queue and receives on the second.
    pub open spec fn creates(self, m: Seq<u8>, queue_cap: int, layout: QueueLayout) -> bool {
        &&& m.len() == QUEUE_COUNT * queue_mem_size(queue_cap)
        &&& self.send_queue.base() == 0
        &&& self.recv_queue.base() == queue_mem_size(queue_cap)
        &&& self.send_queue.capacity() == queue_cap == mem::u32_at(m, 0)
        &&& self.recv_queue.capacity() == queue_cap == mem::u32_at(m, queue_mem_size(queue_cap))
        &&& self.send_queue.layout() == layout
        &&& self.recv_queue.layout() == layout
    }

    /// The side that maps a region: it receives on the first queue and sends on the second.
    pub open spec fn maps(self, m: Seq<u8>, layout: QueueLayout) -> bool {
        &&& self.recv_queue.base() == 0
        &&& self.send_queue.base() == m.len() / 2
        &&& self.recv_queue.capacity() == mem::u32_at(m, 0)
        &&& self.send_queue.capacity() == mem::u32_at(m, (m.len() / 2) as int)
        &&& self.send_queue.layout() == layout
        &&& self.recv_queue.layout() == layout
    }

    /// Sets up both queues in a region behind an anonymous memory file descriptor.
    pub fn create_with_memfd(
        mem: &mut [u8],
        queue_path_name: &str,
        queue_cap: u32,
        layout: QueueLayout,
        memfd: i32,
    ) -> (r: Self)
        requires
            old(mem)@.len() == QUEUE_COUNT * queue_mem_size(queue_cap as int),
        ensures
            r.path@ == queue_path_name@,
            r.memfd == memfd,
            r.mmap_map_type == MemMapType::MemMapTypeMemFd,
            r.creates(final(mem)@, queue_cap as int, layout),
            r.send_queue.wf(final(mem)@),
            r.recv_queue.wf(final(mem)@),
            r.send_queue.elements(final(mem)@) == Seq::<QueueElement>::empty(),
            r.recv_queue.elements(final(mem)@) == Seq::<QueueElement>::empty(),
            r.send_queue.working_flag(final(mem)@) == 0,
            r.recv_queue.working_flag(final(mem)@) == 0,
    {
        let (send_queue, recv_queue) = Self::create_queues(mem, queue_cap, layout);
        QueueManager {
            path: queue_path_name.to_owned(),
            send_queue,
            recv_queue,
            memfd,
            mmap_map_type: MemMapType::MemMapTypeMemFd,
        }
    }

    /// Sets up both queues in a region behind a file.
    pub fn create_with_file(
        mem: &mut [u8],
        shm_path: &str,
        queue_cap: u32,
        layout: QueueLayout,
    ) -> (r: Self)
        requires
            old(mem)@.len() == QUEUE_COUNT * queue_mem_size(queue_cap as int),
        ensures
            r.path@ == shm_path@,
            r.memfd == 0,
            r.mmap_map_type == MemMapType::MemMapTypeDevShmFile,
            r.creates(final(mem)@, queue_cap as int, layout),
            r.send_queue.wf(final(mem)@),
            r.recv_queue.wf(final(mem)@),
            r.send_queue.elements(final(mem)@) == Seq::<QueueElement>::empty(),
            r.recv_queue.elements(final(mem)@) == Seq::<QueueElement>::empty(),
            r.send_queue.working_flag(final(mem)@) == 0,
            r.recv_queue.working_flag(final(mem)@) == 0,
    {
        let (send_queue, recv_queue) = Self::create_queues(mem, queue_cap, layout);
        QueueManager {
            path: shm_path.to_owned(),
            send_queue,
            recv_queue,
            memfd: 0,
            mmap_map_type: MemMapType::MemMapTypeDevShmFile,
        }
    }

    fn create_queues(mem: &mut [u8], queue_cap: u32, layout: QueueLayout) -> (r: (Queue, Queue))
        requires
            old(mem)@.len() == QUEUE_COUNT * queue_mem_size(queue_cap as int),
        ensures
            final(mem)@.len() == old(mem)@.len(),
            r.0.base() == 0,
            r.1.base() == queue_mem_size(queue_cap as int),
            r.0.capacity() == queue_cap == mem::u32_at(final(mem)@, 0),
            r.1.capacity() == queue_cap == mem::u32_at(
                final(mem)@,
                queue_mem_size(queue_cap as int),
            ),
            r.0.layout() == layout,
            r.1.layout() == layout,
            r.0.wf(final(mem)@),
            r.1.wf(final(mem)@),
            r.0.elements(final(mem)@) == Seq::<QueueElement>::empty(),
            r.1.elements(final(mem)@) == Seq::<QueueElement>::empty(),
            r.0.working_flag(final(mem)@) == 0,
            r.1.working_flag(final(mem)@) == 0,
    {
        let mem_size: usize = mem.len();
        mem::fill_zero(mem);
        let first = Queue::create_from_bytes(mem, 0, queue_cap, layout);
        let ghost m1 = mem@;
        let second = Queue::create_from_bytes(mem, mem_size / 2, queue_cap, layout);
        proof {
            mem::lemma_u32_at_same(m1, mem@, 0);
            mem::lemma_u64_at_same(m1, mem@, layout.head_offset() as int);
            mem::lemma_u64_at_same(m1, mem@, layout.tail_offset() as int);
            mem::lemma_u32_at_same(m1, mem@, layout.working_flag_offset() as int);
            assert(first.elements(m1).len() == 0);
            assert(first.elements(mem@) =~= Seq::<QueueElement>::empty());
        }
        (first, second)
    }

    /// Takes hold of both queues in a region behind a memory file descriptor of the peer.
    pub fn mapping_with_memfd(
        mem: &[u8],
        queue_path_name: &str,
        memfd: i32,
        layout: QueueLayout,
    ) -> (r: Result<Self, QueueError>)
        requires
            2 * QUEUE_HEADER_LENGTH <= mem@.len(),
        ensures
            r is Err <==> layout == QueueLayout::Aligned && mem@.len() % 16 != 0,
            r matches Err(e) ==> e == QueueError::Unaligned,
            r matches Ok(q) ==> {
                &&& q.path@ == queue_path_name@
                &&& q.memfd == memfd
                &&& q.mmap_map_type == MemMapType::MemMapTypeMemFd
                &&& q.maps(mem@, layout)
            },
    {
        if layout == QueueLayout::Aligned && mem.len() % 16 != 0 {
            return Err(QueueError::Unaligned);
        }
        Ok(
            QueueManager {
                path: queue_path_name.to_owned(),
                send_queue: Queue::mapping_from_bytes(mem, mem.len() / 2, layout),
                recv_queue: Queue::mapping_from_bytes(mem, 0, layout),
                memfd,
                mmap_map_type: MemMapType::MemMapTypeMemFd,
            },
        )
    }

    /// Takes hold of both queues in a region behind a file of the peer.
    pub fn mapping_with_file(mem: &[u8], shm_path: &str, layout: QueueLayout) -> (r: Result<
        Self,
        QueueError,
    >)
        requires
            2 * QUEUE_HEADER_LENGTH <= mem@.len(),
        ensures
            r is Err <==> layout == QueueLayout::Aligned && mem@.len() % 16 != 0,
            r matches Err(e) ==> e == QueueError::Unaligned,
            r matches Ok(q) ==> {
                &&& q.path@ == shm_path@
                &&& q.memfd == 0
                &&& q.mmap_map_type == MemMapType::MemMapTypeDevShmFile
                &&& q.maps(mem@, layout)
            },
    {
        if layout == QueueLayout::Aligned && mem.len() % 16 != 0 {
            return Err(QueueError::Unaligned);
        }
        Ok(
            QueueManager {
                path: shm_path.to_owned(),
                send_queue: Queue::mapping_from_bytes(mem, mem.len() / 2, layout),
                recv_queue: Queue::mapping_from_bytes(mem, 0, layout),
                memfd: 0,
                mmap_map_type: MemMapType::MemMapTypeDevShmFile,
            },
        )
    }

    /// The two sides of a region talk to each other: what one sends on is what the other
    /// receives on, in both directions.
    pub proof fn law_peers_share_queues(
        creator: Self,
        mapper: Self,
        m: Seq<u8>,
        queue_cap: int,
        layout: QueueLayout,
    )
        requires
            creator.creates(m, queue_cap, layout),
            mapper.maps(m, layout),
        ensures
            mapper.recv_queue == creator.send_queue,
            mapper.send_queue == creator.recv_queue,
    {
    }
}

/// What is put in first comes out first, and nothing of it is lost or changed: two elements that are
/// put into an empty queue come out in that order, and then the queue is empty again.
pub proof fn law_first_in_first_out(
    q: &Queue,
    e: QueueElement,
    f: QueueElement,
    a: &mut [u8],
    b: &mut [u8],
    c: &mut [u8],
    d: &mut [u8],
    x: &mut [u8],
    r: (Result<(), Error>, Result<(), Error>),
    out: (Result<QueueElement, Error>, Result<QueueElement, Error>, Result<QueueElement, Error>),
)
    requires
        q.elements(old(a)@).len() == 0,
        q.capacity() >= 2,
        call_ensures(Queue::put, (q, a, e), r.0),
        old(b)@ == final(a)@,
        call_ensures(Queue::put, (q, b, f), r.1),
        old(c)@ == final(b)@,
        call_ensures(Queue::pop, (q, c), out.0),
        old(d)@ == final(c)@,
        call_ensures(Queue::pop, (q, d), out.1),
        old(x)@ == final(d)@,
        call_ensures(Queue::pop, (q, x), out.2),
    ensures
        r.0 is Ok && r.1 is Ok,
        out.0 == Ok::<QueueElement, Error>(e),
        out.1 == Ok::<QueueElement, Error>(f),
        out.2 == Err::<QueueElement, Error>(Error::QueueEmpty),
{
    let one = q.elements(final(a)@);
    assert(one =~= seq![e]);
    assert(q.elements(final(b)@) =~= seq![e, f]);
    assert(q.elements(final(c)@) =~= seq![f]);
}

/// However many elements wait, an element that is put in stands behind all of them, and the one that
/// is taken out stood before all others. A full queue takes nothing, an empty one gives nothing, and
/// then nothing changes.
pub proof fn law_queue_keeps_its_order(
    q: &Queue,
    e: QueueElement,
    a: &mut [u8],
    r: Result<(), Error>,
    b: &mut [u8],
    out: Result<QueueElement, Error>,
)
    requires
        q.capacity() >= 0,
        call_ensures(Queue::put, (q, a, e), r),
        call_ensures(Queue::pop, (q, b), out),
    ensures
        r is Ok <==> q.elements(old(a)@).len() < q.capacity(),
        r is Ok ==> q.elements(final(a)@).len() == q.elements(old(a)@).len() + 1
            && q.elements(final(a)@).last() == e && q.elements(final(a)@).drop_last()
            =~= q.elements(old(a)@),
        r matches Err(x) ==> x is QueueFull && final(a)@ == old(a)@,
        q.working_flag(final(a)@) == q.working_flag(old(a)@),
        out is Ok <==> q.elements(old(b)@).len() > 0,
        out matches Ok(x) ==> q.elements(old(b)@) =~= seq![x] + q.elements(final(b)@),
        out matches Err(x) ==> x is QueueEmpty && final(b)@ == old(b)@,
        q.working_flag(final(b)@) == q.working_flag(old(b)@),
{
}

/// The consumer of a queue goes to sleep only where nothing waits, and exactly one who marks it as
/// at work is told to wake it.
pub proof fn law_consumer_sleeps_only_when_empty(
    q: &Queue,
    a: &mut [u8],
    b: &mut [u8],
    c: &mut [u8],
    first: bool,
    second: bool,
    slept: bool,
    working: bool,
)
    requires
        call_ensures(Queue::mark_working, (q, a), first),
        old(b)@ == final(a)@,
        call_ensures(Queue::mark_working, (q, b), second),
        old(c)@ == final(b)@,
        call_ensures(Queue::mark_not_working, (q, c), slept),
        call_ensures(Queue::consumer_is_working, (q, &*final(c)), working),
    ensures
        first <==> q.working_flag(old(a)@) == 0,
        !second,
        slept <==> q.elements(old(a)@).len() == 0,
        working <==> !slept,
        q.elements(final(c)@) == q.elements(old(a)@),
{
}

/// A queue tells how much waits in it.
pub proof fn law_queue_tells_what_waits(
    q: Queue,
    m: &[u8],
    size: i64,
    full: bool,
    empty: bool,
    next: bool,
)
    requires
        call_ensures(Queue::size, (&q, m), size),
        call_ensures(Queue::is_full, (&q, m), full),
        call_ensures(Queue::is_empty, (&q, m), empty),
        call_ensures(Queue::has_next_position, (&q, m), next),
    ensures
        size == q.elements(m@).len(),
        full <==> size == q.capacity(),
        empty <==> size == 0,
        next <==> q.tail(m@) < i64::MAX,
{
}

/// What one side puts into the queue that it sends on is what the other takes out of the queue that
/// it receives on, in both directions, whether the region is behind a file or a descriptor.
pub proof fn law_sides_of_a_region_talk(
    m: &mut [u8],
    path: &str,
    queue_cap: u32,
    layout: QueueLayout,
    here: QueueManager,
    there: Result<QueueManager, QueueError>,
    e: QueueElement,
    a: &mut [u8],
    r: Result<(), Error>,
    b: &mut [u8],
    out: Result<QueueElement, Error>,
    c: &mut [u8],
    s: Result<(), Error>,
    d: &mut [u8],
    back: Result<QueueElement, Error>,
)
    requires
        queue_cap > 0,
        layout == QueueLayout::Aligned ==> final(m)@.len() % 16 == 0,
        call_ensures(QueueManager::create_with_file, (m, path, queue_cap, layout), here),
        call_ensures(QueueManager::mapping_with_file, (&*final(m), path, layout), there),
        old(a)@ == final(m)@,
        call_ensures(Queue::put, (&here.send_queue, a, e), r),
        old(b)@ == final(a)@,
        call_ensures(Queue::pop, (&there->Ok_0.recv_queue, b), out),
        old(c)@ == final(m)@,
        call_ensures(Queue::put, (&there->Ok_0.send_queue, c, e), s),
        old(d)@ == final(c)@,
        call_ensures(Queue::pop, (&here.recv_queue, d), back),
    ensures
        there is Ok,
        r is Ok,
        out == Ok::<QueueElement, Error>(e),
        s is Ok,
        back == Ok::<QueueElement, Error>(e),
{
    QueueManager::law_peers_share_queues(
        here,
        there->Ok_0,
        final(m)@,
        queue_cap as int,
        layout,
    );
    assert(here.send_queue.elements(final(a)@)[0] == e);
    assert(here.recv_queue.elements(final(c)@)[0] == e);
}

/// Both sides of one machine take the same layout for the same protocol, whatever it is, and the
/// words of a layout do not overlap.
pub proof fn law_layout_words_are_apart(version: u8, needs_alignment: bool, l: QueueLayout)
    requires
        call_ensures(QueueLayout::for_target, (version, needs_alignment), l),
    ensures
        l == QueueLayout::Aligned <==> version >= 4 || needs_alignment,
        ({
            let (f, h, t) = (l.working_flag_offset(), l.head_offset(), l.tail_offset());
            &&& 4 <= f <= 20 && 4 <= h <= 16 && 4 <= t <= 16
            &&& f + 4 <= h || h + 8 <= f
            &&& f + 4 <= t || t + 8 <= f
            &&& h + 8 <= t || t + 8 <= h
            &&& l == QueueLayout::Aligned ==> h % 8 == 0 && t % 8 == 0 && f % 4 == 0
        }),
{
}

/// A file for the queues is planned where it is not there and has room, and it holds both queues.
pub proof fn law_queue_file_holds_both_queues(
    exists_already: bool,
    can_create: bool,
    queue_cap: u32,
    r: Result<usize, QueueError>,
)
    requires
        call_ensures(plan_queue_file, (exists_already, can_create, queue_cap), r),
        2 * (24 + 12 * queue_cap) <= usize::MAX,
    ensures
        r is Ok <==> !exists_already && can_create,
        r matches Ok(n) ==> n == 2 * (24 + 12 * queue_cap),
        exists_already ==> r == Err::<usize, QueueError>(QueueError::Existed),
        !exists_already && !can_create ==> r is Err && r->Err_0 is NoSpace,
{
}

/// A region of queues is mapped in the size that the system reports, unless that is none, or is not
/// aligned where it has to be.
pub proof fn law_reported_size_is_mapped(
    reported: i64,
    layout: QueueLayout,
    r: Result<u64, QueueError>,
)
    requires
        call_ensures(queue_mapping_size, (reported, layout), r),
    ensures
        r is Ok <==> reported >= 0 && (layout == QueueLayout::Aligned ==> reported % 16 == 0),
        r matches Ok(n) ==> n == reported,
        reported < 0 ==> r == Err::<u64, QueueError>(QueueError::InvalidSize(reported)),
        reported >= 0 && r is Err ==> r->Err_0 is Unaligned,
{
}

/// A region of queues is large enough for its header and every element, and its layout is that of
/// the protocol.
pub proof fn law_queue_takes_what_its_elements_take(cap: u32, n: usize, version: u8, l: QueueLayout)
    requires
        24 + 12 * cap <= usize::MAX,
        call_ensures(count_queue_mem_size, (cap,), n),
        call_ensures(QueueLayout::for_protocol_version, (version,), l),
    ensures
        n == 24 + 12 * cap,
        l == QueueLayout::Aligned <==> version >= 4,
{
}

/// What one side puts into a region behind a descriptor the other takes out, in both directions.
pub proof fn law_sides_of_a_descriptor_talk(
    m: &mut [u8],
    path: &str,
    queue_cap: u32,
    layout: QueueLayout,
    fd: i32,
    here: QueueManager,
    peer_fd: i32,
    there: Result<QueueManager, QueueError>,
)
    requires
        layout == QueueLayout::Aligned ==> final(m)@.len() % 16 == 0,
        call_ensures(QueueManager::create_with_memfd, (m, path, queue_cap, layout, fd), here),
        call_ensures(
            QueueManager::mapping_with_memfd,
            (&*final(m), path, peer_fd, layout),
            there,
        ),
    ensures
        there is Ok,
        there->Ok_0.recv_queue == here.send_queue,
        there->Ok_0.send_queue == here.recv_queue,
        here.send_queue.elements(final(m)@).len() == 0,
        here.recv_queue.elements(final(m)@).len() == 0,
        here.send_queue.capacity() == queue_cap,
        here.memfd == fd,
        there->Ok_0.memfd == peer_fd,
{
    QueueManager::law_peers_share_queues(
        here,
        there->Ok_0,
        final(m)@,
        queue_cap as int,
        layout,
    );
}

} // verus!
