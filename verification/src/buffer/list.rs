//! The free list of buffers of one capacity.

use vstd::arithmetic::div_mod::{
    lemma_div_pos_is_pos, lemma_fundamental_div_mod, lemma_mod_multiples_basic,
};
use vstd::prelude::*;

use crate::buffer::manager::{
    BUFFER_DATA_START_OFFSET, BUFFER_FLAG_OFFSET, BUFFER_HEADER_SIZE, BUFFER_SIZE_OFFSET,
    HAS_NEXT_BUFFER_FLAG, NEXT_BUFFER_OFFSET, SLICE_IN_USED_FLAG,
};
use crate::buffer::slice;
use crate::buffer::slice::{BufferHeader, BufferSlice, SliceData};
use crate::error::Error;
use crate::mem;

verus! {

/// The bytes in front of the buffers: size 4, capacity 4, head 4, tail 4, capacity per buffer 4,
/// push count 8, pop count 8.
pub const BUFFER_LIST_HEADER_SIZE: u32 = 36;

/// Why a free list could not be set up or mapped.
#[derive(Clone, Copy, Debug, PartialEq, Eq, Structural)]
pub enum ListError {
    /// A list has at least one buffer of at least one byte.
    Zero { buffer_num: u32, cap_per_buffer: u32 },
    /// The region is shorter than the list needs.
    NoRoom { at_least: u128, mem_len: usize },
}

/// The list of the free buffers of one capacity, at a position of a region.
///
/// The first buffer to hand out is `head`, the one that came back last is `tail`. Every free
/// buffer but the last names the next one in its header.
#[derive(Clone, Copy, Debug)]
pub struct BufferList {
    /// Where the list stands in the region.
    pub offset_in_shm: u32,
    /// How many buffers there are, free or in use.
    pub cap: u32,
    /// The capacity of each buffer.
    pub cap_per_buffer: u32,
    /// Where the count of buffers in use stands, counted from the list's position.
    pub counter_offset: u32,
}

/// The bytes that a list takes.
pub open spec fn list_mem_size(buffer_num: int, cap_per_buffer: int) -> int {
    BUFFER_LIST_HEADER_SIZE + buffer_num * (cap_per_buffer + BUFFER_HEADER_SIZE)
}

/// The bytes that a list takes.
pub fn count_buffer_list_mem_size(buffer_num: u32, cap_per_buffer: u32) -> (r: u32)
    requires
        list_mem_size(buffer_num as int, cap_per_buffer as int) <= u32::MAX,
        cap_per_buffer + BUFFER_HEADER_SIZE <= u32::MAX,
    ensures
        r == list_mem_size(buffer_num as int, cap_per_buffer as int),
{
    assert(0 <= buffer_num * (cap_per_buffer + BUFFER_HEADER_SIZE)) by (nonlinear_arith);
    BUFFER_LIST_HEADER_SIZE + buffer_num * (cap_per_buffer + BUFFER_HEADER_SIZE)
}

/// The bytes that a list takes, in an integer that holds every such sum.
pub fn wide_list_mem_size(buffer_num: u32, cap_per_buffer: u32) -> (r: u128)
    ensures
        r == list_mem_size(buffer_num as int, cap_per_buffer as int),
        r < 0x4_0000_0000_0000_0000,
{
    assert(0 <= buffer_num * (cap_per_buffer + BUFFER_HEADER_SIZE) <= u32::MAX * (u32::MAX
        + BUFFER_HEADER_SIZE)) by (nonlinear_arith)
        requires
            0 <= buffer_num <= u32::MAX,
            0 <= cap_per_buffer <= u32::MAX,
    ;
    BUFFER_LIST_HEADER_SIZE as u128 + buffer_num as u128 * (cap_per_buffer as u128
        + BUFFER_HEADER_SIZE as u128)
}

/// The count after one more; it starts over after the largest.
pub open spec fn count_up(c: u32) -> u32 {
    if c == u32::MAX {
        0
    } else {
        (c + 1) as u32
    }
}

/// The count after one less; it starts over before zero.
pub open spec fn count_down(c: u32) -> u32 {
    if c == 0 {
        u32::MAX
    } else {
        (c - 1) as u32
    }
}

impl BufferList {
    /// The distance between two buffers.
    pub open spec fn stride(self) -> int {
        self.cap_per_buffer + BUFFER_HEADER_SIZE
    }

    /// Where the first buffer stands in the region.
    pub open spec fn region(self) -> int {
        self.offset_in_shm + BUFFER_LIST_HEADER_SIZE
    }

    /// One past the last byte of the list.
    pub open spec fn end(self) -> int {
        self.offset_in_shm + list_mem_size(self.cap as int, self.cap_per_buffer as int)
    }

    /// A buffer stands at `o`, counted from the first one.
    #[verifier::opaque]
    pub open spec fn is_node(self, o: int) -> bool {
        &&& 0 <= o
        &&& o % self.stride() == 0
        &&& o + self.stride() <= self.cap * self.stride()
    }

    /// The number of free buffers as the header has it.
    pub open spec fn size_word(self, m: Seq<u8>) -> u32 {
        mem::u32_at(m, self.offset_in_shm as int)
    }

    pub open spec fn head(self, m: Seq<u8>) -> u32 {
        mem::u32_at(m, self.offset_in_shm + 8)
    }

    pub open spec fn tail(self, m: Seq<u8>) -> u32 {
        mem::u32_at(m, self.offset_in_shm + 12)
    }

    /// The count of buffers in use as the header has it.
    pub open spec fn counter(self, m: Seq<u8>) -> u32 {
        mem::u32_at(m, self.offset_in_shm + self.counter_offset)
    }

    /// The list lies inside the region.
    pub open spec fn fits(self, m: Seq<u8>) -> bool {
        &&& 1 <= self.cap
        &&& 1 <= self.cap_per_buffer
        &&& self.end() <= m.len() <= u32::MAX
        &&& self.counter_offset == 20 || self.counter_offset == 24
    }

    /// The header of the free buffer at `o` is that of an empty buffer.
    pub open spec fn is_clear(self, m: Seq<u8>, o: int) -> bool {
        &&& slice::header_size(m, self.region() + o) == 0
        &&& slice::header_start(m, self.region() + o) == 0
    }

    /// The header of the buffer at `o` names the buffer at `p` as the next one.
    pub open spec fn links(self, m: Seq<u8>, o: int, p: int) -> bool {
        &&& slice::header_next(m, self.region() + o) == p
        &&& slice::flag_has_next(slice::header_flag(m, self.region() + o))
    }

    /// `s` are the free buffers from first to last.
    pub open spec fn is_free_seq(self, m: Seq<u8>, s: Seq<int>) -> bool {
        &&& 1 <= s.len() <= self.cap
        &&& s.len() == self.size_word(m)
        &&& s[0] == self.head(m)
        &&& s.last() == self.tail(m)
        &&& s.no_duplicates()
        &&& forall|i: int| 0 <= i < s.len() ==> self.is_node(#[trigger] s[i])
        &&& forall|i: int| 0 <= i < s.len() ==> self.is_clear(m, #[trigger] s[i])
        &&& forall|i: int, j: int|
            0 <= i < s.len() && j == i + 1 && j < s.len() ==> self.links(
                m,
                #[trigger] s[i],
                #[trigger] s[j],
            )
        &&& !slice::flag_has_next(slice::header_flag(m, self.region() + s.last()))
    }

    /// The free buffers from first to last.
    pub open spec fn free(self, m: Seq<u8>) -> Seq<int> {
        choose|s: Seq<int>| self.is_free_seq(m, s)
    }

    /// The capacity of every buffer stands in its header.
    pub open spec fn caps_ok(self, m: Seq<u8>) -> bool {
        forall|o: int| #[trigger]
            self.is_node(o) ==> slice::header_cap(m, self.region() + o) == self.cap_per_buffer
    }

    /// No header says that its buffer is in use.
    pub open spec fn none_marked(self, m: Seq<u8>) -> bool {
        forall|o: int| #[trigger]
            self.is_node(o) ==> !slice::flag_in_used(slice::header_flag(m, self.region() + o))
    }

    /// The list lies inside the region and its free buffers are linked from first to last.
    pub open spec fn wf(self, m: Seq<u8>) -> bool {
        &&& self.fits(m)
        &&& mem::u32_at(m, self.offset_in_shm + 4) == self.cap
        &&& mem::u32_at(m, self.offset_in_shm + 16) == self.cap_per_buffer
        &&& self.caps_ok(m)
        &&& self.is_free_seq(m, self.free(m))
    }

    /// A buffer lies behind the list's header and inside the list.
    pub proof fn lemma_node_in(self, o: int)
        requires
            self.is_node(o),
        ensures
            0 <= o,
            o + self.stride() <= self.cap * self.stride(),
            self.region() + o + self.stride() <= self.end(),
    {
        reveal(BufferList::is_node);
    }

    /// Two buffers do not overlap.
    pub proof fn lemma_nodes_apart(self, a: int, b: int)
        requires
            self.is_node(a),
            self.is_node(b),
        ensures
            a == b || a + self.stride() <= b || b + self.stride() <= a,
    {
        reveal(BufferList::is_node);
        let d = self.stride();
        lemma_fundamental_div_mod(a, d);
        lemma_fundamental_div_mod(b, d);
        let i = a / d;
        let j = b / d;
        assert(i < j ==> d * i + d <= d * j) by (nonlinear_arith)
            requires
                d > 0,
        ;
        assert(j < i ==> d * j + d <= d * i) by (nonlinear_arith)
            requires
                d > 0,
        ;
    }

    /// The buffers stand one stride apart.
    pub proof fn lemma_node_at(self, k: int)
        requires
            0 <= k < self.cap,
        ensures
            self.is_node(k * self.stride()),
    {
        reveal(BufferList::is_node);
        let d = self.stride();
        lemma_mod_multiples_basic(k, d);
        assert(0 <= k * d && k * d + d <= self.cap * d) by (nonlinear_arith)
            requires
                0 <= k < self.cap,
                d > 0,
        ;
    }

    /// Distinct buffers are no more than there are.
    pub proof fn lemma_distinct_nodes_len(self, s: Seq<int>)
        requires
            s.no_duplicates(),
            forall|i: int| 0 <= i < s.len() ==> self.is_node(#[trigger] s[i]),
        ensures
            s.len() <= self.cap,
    {
        reveal(BufferList::is_node);
        let d = self.stride();
        let q = s.map_values(|o: int| o / d);
        assert forall|i: int| 0 <= i < q.len() implies 0 <= #[trigger] q[i] < self.cap by {
            let o = s[i];
            lemma_fundamental_div_mod(o, d);
            lemma_div_pos_is_pos(o, d);
            let k = o / d;
            assert(k < self.cap) by (nonlinear_arith)
                requires
                    d * k + d <= self.cap * d,
                    d > 0,
            ;
        }
        assert(q.no_duplicates()) by {
            assert forall|i: int, j: int|
                0 <= i < q.len() && 0 <= j < q.len() && i != j implies q[i] != q[j] by {
                lemma_fundamental_div_mod(s[i], d);
                lemma_fundamental_div_mod(s[j], d);
                assert(s[i] != s[j]);
            }
        }
        q.unique_seq_to_set();
        vstd::set_lib::lemma_int_range(0, self.cap as int);
        assert(q.to_set().subset_of(vstd::set_lib::set_int_range(0, self.cap as int)));
        vstd::set_lib::lemma_len_subset(
            q.to_set(),
            vstd::set_lib::set_int_range(0, self.cap as int),
        );
    }

    /// There is one sequence of free buffers only.
    pub proof fn lemma_free_unique(self, m: Seq<u8>, s: Seq<int>)
        requires
            self.is_free_seq(m, s),
        ensures
            self.free(m) == s,
    {
        let t = self.free(m);
        assert(self.is_free_seq(m, t));
        self.lemma_free_prefix(m, s, t, s.len() as int);
        assert(s =~= t);
    }

    proof fn lemma_free_prefix(self, m: Seq<u8>, s: Seq<int>, t: Seq<int>, n: int)
        requires
            self.is_free_seq(m, s),
            self.is_free_seq(m, t),
            0 <= n <= s.len(),
        ensures
            forall|i: int| 0 <= i < n ==> s[i] == t[i],
        decreases n,
    {
        if n > 1 {
            self.lemma_free_prefix(m, s, t, n - 1);
            assert(s[n - 2] == t[n - 2]);
            assert(self.links(m, s[n - 2], s[n - 1]));
            assert(self.links(m, t[n - 2], t[n - 1]));
        }
    }

    /// The header words of the buffer at `o` are the same in both regions.
    pub proof fn lemma_node_same(self, a: Seq<u8>, b: Seq<u8>, o: int)
        requires
            mem::same_range(
                a,
                b,
                self.region() + o,
                self.region() + o + BUFFER_HEADER_SIZE,
            ),
        ensures
            slice::header_cap(a, self.region() + o) == slice::header_cap(b, self.region() + o),
            slice::header_size(a, self.region() + o) == slice::header_size(b, self.region() + o),
            slice::header_start(a, self.region() + o) == slice::header_start(b, self.region() + o),
            slice::header_next(a, self.region() + o) == slice::header_next(b, self.region() + o),
            slice::header_flag(a, self.region() + o) == slice::header_flag(b, self.region() + o),
    {
        let p = self.region() + o;
        mem::lemma_u32_at_same(a, b, p);
        mem::lemma_u32_at_same(a, b, p + 4);
        mem::lemma_u32_at_same(a, b, p + 8);
        mem::lemma_u32_at_same(a, b, p + 12);
        assert(a[p + 16] == b[p + 16]);
    }

    /// The words of the list's header are the same in both regions.
    pub proof fn lemma_header_same(self, a: Seq<u8>, b: Seq<u8>)
        requires
            mem::same_range(a, b, self.offset_in_shm as int, self.offset_in_shm + 20),
        ensures
            self.size_word(a) == self.size_word(b),
            mem::u32_at(a, self.offset_in_shm + 4) == mem::u32_at(b, self.offset_in_shm + 4),
            self.head(a) == self.head(b),
            self.tail(a) == self.tail(b),
            mem::u32_at(a, self.offset_in_shm + 16) == mem::u32_at(b, self.offset_in_shm + 16),
    {
        mem::lemma_u32_at_same(a, b, self.offset_in_shm as int);
        mem::lemma_u32_at_same(a, b, self.offset_in_shm + 4);
        mem::lemma_u32_at_same(a, b, self.offset_in_shm + 8);
        mem::lemma_u32_at_same(a, b, self.offset_in_shm + 12);
        mem::lemma_u32_at_same(a, b, self.offset_in_shm + 16);
    }

    /// What the list is does not depend on the contents of its buffers, nor on the headers of
    /// those in use beyond their capacity.
    pub proof fn lemma_frame(self, a: Seq<u8>, b: Seq<u8>)
        requires
            self.wf(a),
            a.len() == b.len(),
            mem::same_range(a, b, self.offset_in_shm as int, self.offset_in_shm + 20),
            self.caps_ok(b),
            forall|i: int|
                0 <= i < self.free(a).len() ==> mem::same_range(
                    a,
                    b,
                    self.region() + #[trigger] self.free(a)[i],
                    self.region() + self.free(a)[i] + BUFFER_HEADER_SIZE,
                ),
        ensures
            self.wf(b),
            self.free(b) == self.free(a),
    {
        let s = self.free(a);
        self.lemma_header_same(a, b);
        assert forall|i: int| 0 <= i < s.len() implies self.is_clear(b, #[trigger] s[i]) by {
            assert(self.is_clear(a, s[i]));
            self.lemma_node_same(a, b, s[i]);
        }
        assert forall|i: int, j: int| 0 <= i < s.len() && j == i + 1 && j < s.len() implies self.links(
            b,
            #[trigger] s[i],
            #[trigger] s[j],
        ) by {
            assert(self.links(a, s[i], s[j]));
            self.lemma_node_same(a, b, s[i]);
        }
        self.lemma_node_same(a, b, s[s.len() - 1]);
        assert(self.is_free_seq(b, s));
        self.lemma_free_unique(b, s);
    }

    /// The capacities stay where nothing but headers behind the capacity and contents change.
    pub proof fn lemma_caps_frame(self, a: Seq<u8>, b: Seq<u8>)
        requires
            self.caps_ok(a),
            forall|o: int| #[trigger]
                self.is_node(o) ==> mem::same_range(
                    a,
                    b,
                    self.region() + o,
                    self.region() + o + 4,
                ),
        ensures
            self.caps_ok(b),
    {
        assert forall|o: int| #[trigger] self.is_node(o) implies slice::header_cap(
            b,
            self.region() + o,
        ) == self.cap_per_buffer by {
            mem::lemma_u32_at_same(a, b, self.region() + o);
        }
    }

    /// Takes a buffer out of the list. The last one stays: with it the two ends never meet.
    pub fn pop(&self, mem: &mut [u8]) -> (r: Result<BufferSlice, Error>)
        requires
            self.wf(old(mem)@),
        ensures
            self.wf(final(mem)@),
            final(mem)@.len() == old(mem)@.len(),
            r is Ok <==> self.free(old(mem)@).len() > 1,
            r matches Err(e) ==> e == Error::NoMoreBuffer && final(mem)@ == old(mem)@,
            r matches Ok(s) ==> {
                let o = self.free(old(mem)@)[0];
                &&& s.is_shm_at(self.region() + o, self.cap_per_buffer as int)
                &&& s.is_fresh()
                &&& self.free(final(mem)@) == self.free(old(mem)@).skip(1)
                &&& self.counter(final(mem)@) == count_up(self.counter(old(mem)@))
                &&& self.is_clear(final(mem)@, o)
                &&& slice::header_flag(final(mem)@, self.region() + o) == 0u8 | SLICE_IN_USED_FLAG
                &&& self.touches_one(old(mem)@, final(mem)@, o)
            },
    {
        broadcast use mem::group_mem;

        let ghost m0 = mem@;
        let ghost s = self.free(m0);
        let off: usize = self.offset_in_shm as usize;
        let region: usize = off + BUFFER_LIST_HEADER_SIZE as usize;
        proof {
            self.lemma_node_in(s[0]);
            self.lemma_fits(m0);
            assert(self.is_node(s[0]));
        }
        let old_head: u32 = mem::get_u32(mem, off + 8);
        let remain: u32 = mem::get_u32(mem, off);
        if remain <= 1 {
            return Err(Error::NoMoreBuffer);
        }
        let bh = BufferHeader(region + old_head as usize);
        assert(self.links(m0, s[0], s[1]));
        if !bh.has_next(mem) {
            return Err(Error::NoMoreBuffer);
        }
        let next: u32 = bh.next_buffer_offset(mem);
        mem::set_u32(mem, off, remain - 1);
        mem::set_u32(mem, off + 8, next);
        bh.clear_flag(mem);
        bh.set_in_used(mem);
        let counter_at: usize = off + self.counter_offset as usize;
        let count: u32 = mem::get_u32(mem, counter_at);
        mem::set_u32(mem, counter_at, count.wrapping_add(1));
        proof {
            self.lemma_popped(m0, mem@);
            assert(self.is_clear(m0, s[0]));
        }
        Ok(
            BufferSlice::new(
                mem,
                Some(bh),
                SliceData::Shm(region + old_head as usize + BUFFER_HEADER_SIZE as usize),
                self.cap_per_buffer,
                old_head + region as u32,
                true,
            ),
        )
    }

    /// A region in which the first free buffer was unlinked.
    proof fn lemma_popped(self, m0: Seq<u8>, m1: Seq<u8>)
        requires
            self.wf(m0),
            m1.len() == m0.len(),
            ({
                let s = self.free(m0);
                &&& s.len() > 1
                &&& self.touches_one(m0, m1, s[0])
                &&& self.size_word(m1) == s.len() - 1
                &&& mem::u32_at(m1, self.offset_in_shm + 4) == self.cap
                &&& self.head(m1) == s[1]
                &&& self.tail(m1) == self.tail(m0)
                &&& mem::u32_at(m1, self.offset_in_shm + 16) == self.cap_per_buffer
            }),
        ensures
            self.wf(m1),
            self.free(m1) == self.free(m0).skip(1),
    {
        let s = self.free(m0);
        let t = s.skip(1);
        assert(self.is_node(s[0]));
        assert forall|o: int| #[trigger] self.is_node(o) implies mem::same_range(
            m0,
            m1,
            self.region() + o,
            self.region() + o + 4,
        ) by {
            self.lemma_node_in(o);
            self.lemma_nodes_apart(o, s[0]);
        }
        self.lemma_caps_frame(m0, m1);
        assert forall|i: int| 1 <= i < s.len() implies mem::same_range(
            m0,
            m1,
            self.region() + #[trigger] s[i],
            self.region() + s[i] + BUFFER_HEADER_SIZE,
        ) by {
            self.lemma_node_in(s[i]);
            self.lemma_nodes_apart(s[0], s[i]);
        }
        assert forall|i: int| 0 <= i < t.len() implies self.is_node(#[trigger] t[i])
            && self.is_clear(m1, t[i]) by {
            assert(t[i] == s[i + 1]);
            self.lemma_node_same(m0, m1, s[i + 1]);
            assert(self.is_clear(m0, s[i + 1]));
        }
        assert forall|i: int, j: int| 0 <= i < t.len() && j == i + 1 && j < t.len() implies self.links(
            m1,
            #[trigger] t[i],
            #[trigger] t[j],
        ) by {
            assert(self.links(m0, s[i + 1], s[j + 1]));
            self.lemma_node_same(m0, m1, s[i + 1]);
        }
        self.lemma_node_same(m0, m1, s[s.len() - 1]);
        assert(t.no_duplicates());
        assert(self.is_free_seq(m1, t));
        self.lemma_free_unique(m1, t);
    }

    /// The list's header lies inside the region.
    pub proof fn lemma_fits(self, m: Seq<u8>)
        requires
            self.fits(m),
        ensures
            self.region() + self.stride() <= self.end(),
            self.end() <= m.len() <= u32::MAX,
    {
        assert(self.cap * self.stride() >= self.stride()) by (nonlinear_arith)
            requires
                self.cap >= 1,
                self.stride() > 0,
        ;
    }

    /// Puts a buffer back at the end of the list.
    pub fn push(&self, mem: &mut [u8], buffer: BufferSlice)
        requires
            self.wf(old(mem)@),
            self.is_node(buffer.offset_in_shm - self.region()),
            !self.free(old(mem)@).contains(buffer.offset_in_shm - self.region()),
            buffer.is_shm_at(buffer.offset_in_shm as int, self.cap_per_buffer as int),
        ensures
            self.wf(final(mem)@),
            final(mem)@.len() == old(mem)@.len(),
            self.free(final(mem)@) == self.free(old(mem)@).push(
                buffer.offset_in_shm - self.region(),
            ),
            self.counter(final(mem)@) == count_down(self.counter(old(mem)@)),
            slice::header_flag(final(mem)@, buffer.offset_in_shm as int) == 0,
            ({
                let z = self.region() + self.free(old(mem)@).last();
                slice::header_flag(final(mem)@, z) == slice::header_flag(old(mem)@, z)
                    | HAS_NEXT_BUFFER_FLAG
            }),
            self.touches_two(
                old(mem)@,
                final(mem)@,
                self.free(old(mem)@).last(),
                buffer.offset_in_shm - self.region(),
            ),
    {
        broadcast use mem::group_mem;

        let ghost m0 = mem@;
        let ghost s = self.free(m0);
        let ghost o = buffer.offset_in_shm - self.region();
        let ghost z = s.last();
        let ghost t = s.push(o);
        let off: usize = self.offset_in_shm as usize;
        let region: usize = off + BUFFER_LIST_HEADER_SIZE as usize;
        proof {
            self.lemma_fits(m0);
            self.lemma_node_in(o);
            assert(self.is_node(s[s.len() - 1]));
            self.lemma_node_in(z);
            self.lemma_nodes_apart(z, o);
            assert(s.contains(z)) by {
                assert(s[s.len() - 1] == z);
            }
            slice::lemma_flags(slice::header_flag(m0, self.region() + z));
            assert(t.no_duplicates());
            assert forall|i: int| 0 <= i < t.len() implies self.is_node(#[trigger] t[i]) by {
                if i < s.len() {
                    assert(t[i] == s[i]);
                }
            }
            self.lemma_distinct_nodes_len(t);
        }
        let mut buffer = buffer;
        buffer.reset(mem);
        let old_tail: u32 = mem::get_u32(mem, off + 12);
        let new_tail: u32 = buffer.offset_in_shm - region as u32;
        mem::set_u32(mem, off + 12, new_tail);
        BufferHeader(region + old_tail as usize).link_next(mem, new_tail);
        let size: u32 = mem::get_u32(mem, off);
        mem::set_u32(mem, off, size.wrapping_add(1));
        let counter_at: usize = off + self.counter_offset as usize;
        let count: u32 = mem::get_u32(mem, counter_at);
        mem::set_u32(mem, counter_at, count.wrapping_sub(1));
        proof {
            self.lemma_pushed(m0, mem@, o);
        }
    }

    /// A region in which the buffer at `o` was linked behind the last free one.
    proof fn lemma_pushed(self, m0: Seq<u8>, m1: Seq<u8>, o: int)
        requires
            self.wf(m0),
            m1.len() == m0.len(),
            self.is_node(o),
            !self.free(m0).contains(o),
            ({
                let s = self.free(m0);
                let z = s.last();
                &&& self.touches_two(m0, m1, z, o)
                &&& self.size_word(m1) == s.len() + 1
                &&& mem::u32_at(m1, self.offset_in_shm + 4) == self.cap
                &&& self.head(m1) == self.head(m0)
                &&& self.tail(m1) == o
                &&& mem::u32_at(m1, self.offset_in_shm + 16) == self.cap_per_buffer
                &&& self.links(m1, z, o)
                &&& self.is_clear(m1, z)
                &&& self.is_clear(m1, o)
                &&& slice::header_flag(m1, self.region() + o) == 0
            }),
        ensures
            self.wf(m1),
            self.free(m1) == self.free(m0).push(o),
    {
        let s = self.free(m0);
        let z = s.last();
        let t = s.push(o);
        self.lemma_fits(m0);
        self.lemma_node_in(o);
        assert(self.is_node(s[s.len() - 1]));
        self.lemma_node_in(z);
        self.lemma_nodes_apart(z, o);
        assert(t.no_duplicates());
        assert forall|i: int| 0 <= i < t.len() implies self.is_node(#[trigger] t[i]) by {
            if i < s.len() {
                assert(t[i] == s[i]);
            }
        }
        self.lemma_distinct_nodes_len(t);
        assert forall|p: int| #[trigger] self.is_node(p) implies mem::same_range(
            m0,
            m1,
            self.region() + p,
            self.region() + p + 4,
        ) by {
            self.lemma_node_in(p);
            self.lemma_nodes_apart(p, o);
            self.lemma_nodes_apart(p, z);
        }
        self.lemma_caps_frame(m0, m1);
        assert forall|i: int| 0 <= i < s.len() - 1 implies mem::same_range(
            m0,
            m1,
            self.region() + #[trigger] s[i],
            self.region() + s[i] + BUFFER_HEADER_SIZE,
        ) by {
            self.lemma_node_in(s[i]);
            self.lemma_nodes_apart(o, s[i]);
            self.lemma_nodes_apart(z, s[i]);
            assert(s[i] != s[s.len() - 1]);
            assert(s.contains(s[i]));
        }
        assert forall|i: int| 0 <= i < t.len() implies self.is_clear(m1, #[trigger] t[i]) by {
            if i < s.len() - 1 {
                assert(t[i] == s[i]);
                assert(self.is_clear(m0, s[i]));
                self.lemma_node_same(m0, m1, s[i]);
            } else if i == s.len() - 1 {
                assert(t[i] == z);
            } else {
                assert(t[i] == o);
            }
        }
        assert forall|i: int, j: int| 0 <= i < t.len() && j == i + 1 && j < t.len() implies self.links(
            m1,
            #[trigger] t[i],
            #[trigger] t[j],
        ) by {
            if i < s.len() - 1 {
                assert(self.links(m0, s[i], s[j]));
                self.lemma_node_same(m0, m1, s[i]);
            } else {
                assert(t[i] == z && t[j] == o);
            }
        }
        slice::lemma_flags(0);
        assert(self.is_free_seq(m1, t));
        self.lemma_free_unique(m1, t);
    }

    /// The byte at `i` is one of the list's header. The count of what the other side took out and
    /// gave back is not, nor is what is reserved.
    pub open spec fn in_header(self, i: int) -> bool {
        ||| self.offset_in_shm <= i < self.offset_in_shm + 20
        ||| self.offset_in_shm + self.counter_offset <= i < self.offset_in_shm
            + self.counter_offset + 4
    }

    /// The byte at `i` is one of the list's header or lies in one of its buffers.
    pub open spec fn holds(self, i: int) -> bool {
        self.in_header(i) || self.region() <= i < self.end()
    }

    /// `b` differs from `a` at most in the list's header and in the headers of the buffers at `o`
    /// and `p`, there behind the capacity.
    pub open spec fn touches_two(self, a: Seq<u8>, b: Seq<u8>, o: int, p: int) -> bool {
        let x = self.region() + o;
        let y = self.region() + p;
        forall|i: int|
            0 <= i < a.len() && !self.in_header(i) && !(x + 4 <= i < x + BUFFER_HEADER_SIZE) && !(y
                + 4 <= i < y + BUFFER_HEADER_SIZE) ==> #[trigger] a[i] == b[i]
    }

    /// How many buffers can be taken out.
    pub fn remain(&self, mem: &[u8]) -> (r: isize)
        requires
            self.wf(mem@),
        ensures
            r == self.free(mem@).len() - 1,
    {
        proof {
            self.lemma_fits(mem@);
            self.lemma_cap_bound(mem@);
        }
        mem::get_u32(mem, self.offset_in_shm as usize) as isize - 1
    }

    /// A list in a region of bounded size has a bounded number of buffers.
    pub proof fn lemma_cap_bound(self, m: Seq<u8>)
        requires
            self.fits(m),
        ensures
            self.cap * 21 <= u32::MAX,
    {
        assert(self.cap * self.stride() >= self.cap * 21) by (nonlinear_arith)
            requires
                self.cap >= 1,
                self.stride() >= 21,
        ;
    }

    /// `b` differs from `a` at most in the list's header and in the header of the buffer at `o`,
    /// there behind the capacity.
    pub open spec fn touches_one(self, a: Seq<u8>, b: Seq<u8>, o: int) -> bool {
        let p = self.region() + o;
        forall|i: int|
            0 <= i < a.len() && !self.in_header(i) && !(p + 4 <= i < p + BUFFER_HEADER_SIZE)
                ==> #[trigger] a[i] == b[i]
    }

    /// The buffers of a new list from first to last.
    pub open spec fn all_nodes(self) -> Seq<int> {
        Seq::new(self.cap as nat, |k: int| k * self.stride())
    }

    /// No header of a free buffer says that the buffer is in use.
    pub open spec fn free_unmarked(self, m: Seq<u8>) -> bool {
        forall|i: int|
            0 <= i < self.free(m).len() ==> !slice::flag_in_used(
                slice::header_flag(m, self.region() + #[trigger] self.free(m)[i]),
            )
    }

    /// Free buffers that are not marked stay so when one is taken out.
    pub proof fn law_taking_out_marks_no_free_buffer(self, a: Seq<u8>, b: Seq<u8>)
        requires
            self.wf(a),
            self.free(a).len() > 1,
            self.free(b) == self.free(a).skip(1),
            self.touches_one(a, b, self.free(a)[0]),
            self.free_unmarked(a),
        ensures
            self.free_unmarked(b),
    {
        let s = self.free(a);
        assert(self.is_node(s[0]));
        self.lemma_fits(a);
        self.lemma_node_in(s[0]);
        assert forall|i: int| 0 <= i < self.free(b).len() implies !slice::flag_in_used(
            slice::header_flag(b, self.region() + #[trigger] self.free(b)[i]),
        ) by {
            let x = s[i + 1];
            assert(self.is_node(x));
            self.lemma_node_in(x);
            self.lemma_nodes_apart(s[0], x);
            self.lemma_node_same(a, b, x);
            assert(!slice::flag_in_used(slice::header_flag(a, self.region() + s[i + 1])));
        }
    }

    /// Free buffers that are not marked stay so when one comes back, and it is not marked either.
    pub proof fn law_coming_back_marks_no_free_buffer(self, a: Seq<u8>, b: Seq<u8>, o: int)
        requires
            self.wf(a),
            self.is_node(o),
            !self.free(a).contains(o),
            self.free(b) == self.free(a).push(o),
            self.touches_two(a, b, self.free(a).last(), o),
            slice::header_flag(b, self.region() + o) == 0,
            slice::header_flag(b, self.region() + self.free(a).last()) == slice::header_flag(
                a,
                self.region() + self.free(a).last(),
            ) | HAS_NEXT_BUFFER_FLAG,
            self.free_unmarked(a),
        ensures
            self.free_unmarked(b),
    {
        let s = self.free(a);
        let n = s.len() as int;
        let z = s.last();
        assert(self.is_node(s[n - 1]));
        self.lemma_fits(a);
        self.lemma_node_in(z);
        self.lemma_node_in(o);
        slice::lemma_flags(slice::header_flag(a, self.region() + z));
        slice::lemma_flags(0);
        assert forall|i: int| 0 <= i < self.free(b).len() implies !slice::flag_in_used(
            slice::header_flag(b, self.region() + #[trigger] self.free(b)[i]),
        ) by {
            if i < n {
                let x = s[i];
                assert(self.is_node(x));
                assert(!slice::flag_in_used(slice::header_flag(a, self.region() + s[i])));
                if i < n - 1 {
                    self.lemma_node_in(x);
                    self.lemma_nodes_apart(z, x);
                    self.lemma_nodes_apart(o, x);
                    self.lemma_node_same(a, b, x);
                }
            }
        }
    }

    /// A list of which every buffer is free has as many free buffers as buffers.
    pub proof fn lemma_all_free(self, m: Seq<u8>)
        requires
            self.wf(m),
            forall|x: int| #[trigger] self.is_node(x) ==> self.free(m).contains(x),
        ensures
            self.free(m).len() == self.cap,
    {
        let f = self.free(m);
        let g = self.all_nodes();
        assert forall|k: int| 0 <= k < g.len() implies self.is_node(#[trigger] g[k]) by {
            self.lemma_node_at(k);
        }
        assert(g.no_duplicates()) by {
            assert forall|i: int, j: int| 0 <= i < g.len() && 0 <= j < g.len() && i != j implies g[i]
                != g[j] by {
                assert(i * self.stride() != j * self.stride()) by (nonlinear_arith)
                    requires
                        i != j,
                        self.stride() > 0,
                ;
            }
        }
        f.unique_seq_to_set();
        g.unique_seq_to_set();
        assert(g.to_set().subset_of(f.to_set())) by {
            assert forall|x: int| g.to_set().contains(x) implies f.to_set().contains(x) by {
                let k = choose|k: int| 0 <= k < g.len() && g[k] == x;
                assert(self.is_node(g[k]));
            }
        }
        vstd::set_lib::lemma_len_subset(g.to_set(), f.to_set());
    }

    /// The header of the buffer number `k` of a new list.
    spec fn node_ready(self, m: Seq<u8>, k: int) -> bool {
        let o = k * self.stride();
        &&& slice::header_cap(m, self.region() + o) == self.cap_per_buffer
        &&& self.is_clear(m, o)
        &&& k < self.cap - 1 ==> {
            &&& self.links(m, o, (k + 1) * self.stride())
            &&& !slice::flag_in_used(slice::header_flag(m, self.region() + o))
        }
    }

    /// Sets up a list of `buffer_num` free buffers at a position of the region.
    pub fn create(
        buffer_num: u32,
        cap_per_buffer: u32,
        mem: &mut [u8],
        offset_in_mem: u32,
    ) -> (r: Result<Self, ListError>)
        requires
            old(mem)@.len() <= u32::MAX,
        ensures
            final(mem)@.len() == old(mem)@.len(),
            match r {
                Err(ListError::Zero { buffer_num: n, cap_per_buffer: c }) => {
                    &&& buffer_num == 0 || cap_per_buffer == 0
                    &&& n == buffer_num
                    &&& c == cap_per_buffer
                },
                Err(ListError::NoRoom { at_least, mem_len }) => {
                    &&& buffer_num > 0
                    &&& cap_per_buffer > 0
                    &&& old(mem)@.len() < offset_in_mem + list_mem_size(
                        buffer_num as int,
                        cap_per_buffer as int,
                    )
                    &&& at_least == offset_in_mem + list_mem_size(
                        buffer_num as int,
                        cap_per_buffer as int,
                    )
                    &&& mem_len == old(mem)@.len()
                },
                Ok(l) => {
                    &&& buffer_num > 0
                    &&& cap_per_buffer > 0
                    &&& offset_in_mem + list_mem_size(buffer_num as int, cap_per_buffer as int)
                        <= old(mem)@.len()
                    &&& l.offset_in_shm == offset_in_mem
                    &&& l.cap == buffer_num
                    &&& l.cap_per_buffer == cap_per_buffer
                    &&& l.counter_offset == 20
                    &&& l.wf(final(mem)@)
                    &&& l.free(final(mem)@) == l.all_nodes()
                    &&& l.counter(final(mem)@) == 0
                    &&& l.none_marked(final(mem)@)
                    &&& mem::same_range(old(mem)@, final(mem)@, 0, offset_in_mem as int)
                    &&& mem::same_range(
                        old(mem)@,
                        final(mem)@,
                        offset_in_mem + 24,
                        offset_in_mem + BUFFER_LIST_HEADER_SIZE,
                    )
                    &&& mem::same_range(
                        old(mem)@,
                        final(mem)@,
                        l.end(),
                        old(mem)@.len() as int,
                    )
                },
            },
            r is Err ==> final(mem)@ == old(mem)@,
    {
        broadcast use mem::group_mem;

        if buffer_num == 0 || cap_per_buffer == 0 {
            return Err(ListError::Zero { buffer_num, cap_per_buffer });
        }
        let at_least: u128 = wide_list_mem_size(buffer_num, cap_per_buffer);
        let mem_len: usize = mem.len();
        if (mem_len as u128) < offset_in_mem as u128 + at_least {
            return Err(
                ListError::NoRoom { at_least: offset_in_mem as u128 + at_least, mem_len },
            );
        }
        let b = BufferList {
            offset_in_shm: offset_in_mem,
            cap: buffer_num,
            cap_per_buffer,
            counter_offset: 20,
        };
        let ghost m0 = mem@;
        let ghost d = b.stride();
        proof {
            b.lemma_fits(m0);
            b.lemma_node_at(buffer_num - 1);
            b.lemma_node_in((buffer_num - 1) * d);
            assert((buffer_num - 1) * d == buffer_num * d - d) by (nonlinear_arith);
        }
        let off: usize = offset_in_mem as usize;
        let region: usize = off + BUFFER_LIST_HEADER_SIZE as usize;
        let stride: u32 = cap_per_buffer + BUFFER_HEADER_SIZE;
        let tail: u32 = (buffer_num - 1) * stride;
        mem::set_u32(mem, off, buffer_num);
        mem::set_u32(mem, off + 4, buffer_num);
        mem::set_u32(mem, off + 8, 0);
        mem::set_u32(mem, off + 12, tail);
        mem::set_u32(mem, off + 16, cap_per_buffer);
        mem::set_u32(mem, off + 20, 0);
        let ghost m1 = mem@;

        let mut current: u32 = 0;
        let mut i: u32 = 0;
        while i < buffer_num
            invariant
                0 <= i <= buffer_num,
                current == i * d,
                d == b.stride(),
                stride == d,
                b.cap == buffer_num,
                b.offset_in_shm == offset_in_mem,
                b.cap_per_buffer == cap_per_buffer,
                b.fits(m1),
                b.end() <= mem_len <= u32::MAX,
                region == b.region(),
                mem@.len() == m1.len(),
                mem_len == m1.len(),
                mem::same_range(m1, mem@, 0, region as int),
                mem::same_range(m1, mem@, b.end(), m1.len() as int),
                forall|k: int| 0 <= k < i ==> #[trigger] b.node_ready(mem@, k),
            decreases buffer_num - i,
        {
            broadcast use mem::group_mem;

            let ghost before = mem@;
            proof {
                b.lemma_node_at(i as int);
                b.lemma_node_in(i * d);
                assert((i + 1) * d == i * d + d) by (nonlinear_arith);
            }
            let next: u32 = current + stride;
            let at: usize = region + current as usize;
            mem::set_u32(mem, at, cap_per_buffer);
            mem::set_u32(mem, at + BUFFER_SIZE_OFFSET as usize, 0);
            mem::set_u32(mem, at + BUFFER_DATA_START_OFFSET as usize, 0);
            if i < buffer_num - 1 {
                mem::set_u32(mem, at + NEXT_BUFFER_OFFSET as usize, next);
                mem::set_u32(mem, at + BUFFER_FLAG_OFFSET as usize, 0);
                let flag: u8 = mem[at + BUFFER_FLAG_OFFSET as usize];
                mem::set_u8(mem, at + BUFFER_FLAG_OFFSET as usize, flag | HAS_NEXT_BUFFER_FLAG);
                proof {
                    assert(flag == 0) by {
                        reveal(mem::le32);
                    }
                    slice::lemma_flags(flag);
                }
            }
            proof {
                assert(b.node_ready(mem@, i as int));
                assert forall|k: int| 0 <= k < i implies #[trigger] b.node_ready(mem@, k) by {
                    assert(b.node_ready(before, k));
                    b.lemma_node_at(k);
                    b.lemma_node_in(k * d);
                    assert(k * d + d <= i * d) by (nonlinear_arith)
                        requires
                            k < i,
                            d > 0,
                    ;
                    b.lemma_node_same(before, mem@, k * d);
                }
            }
            current = next;
            i += 1;
        }
        let ghost m2 = mem@;
        mem::set_u32(mem, region + tail as usize + BUFFER_FLAG_OFFSET as usize, 0);
        proof {
            b.lemma_header_same(m1, m2);
            mem::lemma_u32_at_same(m1, m2, offset_in_mem + 20);
            b.lemma_created(m2, mem@);
        }
        Ok(b)
    }

    /// A region in which every buffer was linked to the next and the last one was closed.
    proof fn lemma_created(self, m2: Seq<u8>, m3: Seq<u8>)
        requires
            self.fits(m2),
            self.size_word(m2) == self.cap,
            mem::u32_at(m2, self.offset_in_shm + 4) == self.cap,
            self.head(m2) == 0,
            self.tail(m2) == (self.cap - 1) * self.stride(),
            mem::u32_at(m2, self.offset_in_shm + 16) == self.cap_per_buffer,
            forall|k: int| 0 <= k < self.cap ==> #[trigger] self.node_ready(m2, k),
            m3 == mem::put_bytes(
                m2,
                self.region() + (self.cap - 1) * self.stride() + BUFFER_FLAG_OFFSET,
                mem::le32(0),
            ),
        ensures
            self.wf(m3),
            self.free(m3) == self.all_nodes(),
            self.none_marked(m3),
    {
        broadcast use mem::group_mem;

        let s = self.all_nodes();
        let d = self.stride();
        let z = (self.cap - 1) * d;
        self.lemma_fits(m2);
        self.lemma_node_at(self.cap - 1);
        self.lemma_node_in(z);
        assert forall|k: int| 0 <= k < self.cap implies self.is_node(#[trigger] s[k]) by {
            self.lemma_node_at(k);
        }
        assert forall|k: int| 0 <= k < self.cap - 1 implies #[trigger] s[k] + d <= z by {
            assert(k * d + d <= z) by (nonlinear_arith)
                requires
                    z == (self.cap - 1) * d,
                    k < self.cap - 1,
                    d > 0,
            ;
        }
        assert(slice::header_flag(m3, self.region() + z) == 0) by {
            reveal(mem::le32);
        }
        slice::lemma_flags(0);
        assert forall|k: int| 0 <= k < self.cap implies self.is_clear(m3, #[trigger] s[k]) by {
            assert(self.node_ready(m2, k));
            self.lemma_node_in(s[k]);
            if k < self.cap - 1 {
                self.lemma_node_same(m2, m3, s[k]);
            }
        }
        assert forall|i: int, j: int| 0 <= i < s.len() && j == i + 1 && j < s.len() implies self.links(
            m3,
            #[trigger] s[i],
            #[trigger] s[j],
        ) by {
            assert(self.node_ready(m2, i));
            self.lemma_node_in(s[i]);
            self.lemma_node_same(m2, m3, s[i]);
        }
        assert(s.no_duplicates()) by {
            assert forall|i: int, j: int|
                0 <= i < s.len() && 0 <= j < s.len() && i != j implies s[i] != s[j] by {
                assert(i * d != j * d) by (nonlinear_arith)
                    requires
                        i != j,
                        d > 0,
                ;
            }
        }
        assert(0 * d == 0);
        assert(self.is_free_seq(m3, s));
        self.lemma_free_unique(m3, s);
        assert forall|o: int| #[trigger] self.is_node(o) implies slice::header_cap(
            m3,
            self.region() + o,
        ) == self.cap_per_buffer && !slice::flag_in_used(
            slice::header_flag(m3, self.region() + o),
        ) by {
            let k = self.lemma_node_number(o);
            assert(self.node_ready(m2, k));
            self.lemma_node_in(o);
            if k < self.cap - 1 {
                assert(s[k] + d <= z);
                self.lemma_node_same(m2, m3, o);
            }
        }
    }

    /// Every buffer has a number.
    proof fn lemma_node_number(self, o: int) -> (k: int)
        requires
            self.is_node(o),
        ensures
            0 <= k < self.cap,
            o == k * self.stride(),
    {
        reveal(BufferList::is_node);
        let d = self.stride();
        lemma_fundamental_div_mod(o, d);
        lemma_div_pos_is_pos(o, d);
        let k = o / d;
        assert(k < self.cap) by (nonlinear_arith)
            requires
                d * k + d <= self.cap * d,
                d > 0,
        ;
        assert(d * k == k * d) by (nonlinear_arith);
        k
    }

    /// Whether the position lies in the list.
    pub fn spans(&self, offset: u32) -> (r: bool)
        ensures
            r == (self.offset_in_shm <= offset < self.end()),
    {
        let size: u128 = wide_list_mem_size(self.cap, self.cap_per_buffer);
        self.offset_in_shm <= offset && (offset as u128) < self.offset_in_shm as u128 + size
    }

    /// Whether the list lies inside the region and its header has its sizes.
    fn is_placed(&self, mem: &[u8]) -> (r: bool)
        ensures
            r == {
                &&& self.fits(mem@)
                &&& mem::u32_at(mem@, self.offset_in_shm + 4) == self.cap
                &&& mem::u32_at(mem@, self.offset_in_shm + 16) == self.cap_per_buffer
            },
    {
        let len: usize = mem.len();
        if self.cap == 0 || self.cap_per_buffer == 0 || len > u32::MAX as usize {
            return false;
        }
        let size: u128 = wide_list_mem_size(self.cap, self.cap_per_buffer);
        if self.offset_in_shm as u128 + size > len as u128 {
            return false;
        }
        if self.counter_offset != 20 && self.counter_offset != 24 {
            return false;
        }
        proof {
            self.lemma_fits(mem@);
        }
        let off: usize = self.offset_in_shm as usize;
        mem::get_u32(mem, off + 4) == self.cap && mem::get_u32(mem, off + 16)
            == self.cap_per_buffer
    }

    /// Whether the capacity of every buffer stands in its header.
    fn has_caps(&self, mem: &[u8]) -> (r: bool)
        requires
            self.fits(mem@),
        ensures
            r == self.caps_ok(mem@),
    {
        let ghost d = self.stride();
        proof {
            self.lemma_fits(mem@);
        }
        let stride: usize = self.cap_per_buffer as usize + BUFFER_HEADER_SIZE as usize;
        let region: usize = self.offset_in_shm as usize + BUFFER_LIST_HEADER_SIZE as usize;
        let mut at: usize = 0;
        let mut k: u32 = 0;
        while k < self.cap
            invariant
                self.fits(mem@),
                d == self.stride(),
                stride == d,
                region == self.region(),
                0 <= k <= self.cap,
                at == k * d,
                forall|j: int|
                    0 <= j < k ==> slice::header_cap(mem@, self.region() + #[trigger] (j * d))
                        == self.cap_per_buffer,
            decreases self.cap - k,
        {
            proof {
                self.lemma_fits(mem@);
                self.lemma_node_at(k as int);
                self.lemma_node_in(k * d);
                assert((k + 1) * d == k * d + d) by (nonlinear_arith);
            }
            if mem::get_u32(mem, region + at) != self.cap_per_buffer {
                assert(self.is_node(k * d));
                return false;
            }
            at = at + stride;
            k = k + 1;
        }
        proof {
            assert forall|o: int| #[trigger] self.is_node(o) implies slice::header_cap(
                mem@,
                self.region() + o,
            ) == self.cap_per_buffer by {
                let j = self.lemma_node_number(o);
                assert(slice::header_cap(mem@, self.region() + j * d) == self.cap_per_buffer);
            }
        }
        true
    }

    /// Whether a buffer stands at `o`, counted from the first one.
    fn has_node(&self, o: u32) -> (r: bool)
        requires
            1 <= self.cap_per_buffer,
        ensures
            r == self.is_node(o as int),
    {
        reveal(BufferList::is_node);
        let stride: u64 = self.cap_per_buffer as u64 + BUFFER_HEADER_SIZE as u64;
        assert(0 <= self.cap * stride <= u32::MAX * (u32::MAX + BUFFER_HEADER_SIZE)
            < 0x2_0000_0000_0000_0000) by (nonlinear_arith)
            requires
                0 <= self.cap <= u32::MAX,
                0 <= stride <= u32::MAX + BUFFER_HEADER_SIZE,
        ;
        let end: u128 = self.cap as u128 * stride as u128;
        o as u64 % stride == 0 && o as u128 + stride as u128 <= end
    }

    /// Whether the list is well-formed: inside the region, with its sizes in its header, the
    /// capacity of every buffer in the buffer's header, and the free buffers linked from first to
    /// last.
    pub fn is_in_order(&self, mem: &[u8]) -> (r: bool)
        ensures
            r == self.wf(mem@),
    {
        if !self.is_placed(mem) || !self.has_caps(mem) {
            return false;
        }
        let ghost m = mem@;
        let ghost t = self.free(m);
        let ghost d = self.stride();
        proof {
            self.lemma_fits(m);
        }
        let off: usize = self.offset_in_shm as usize;
        let region: usize = off + BUFFER_LIST_HEADER_SIZE as usize;
        let stride: u32 = self.cap_per_buffer + BUFFER_HEADER_SIZE;
        let n: u32 = mem::get_u32(mem, off);
        let tail: u32 = mem::get_u32(mem, off + 12);
        if n == 0 || n > self.cap {
            return false;
        }
        let mut seen: Vec<bool> = vec![false; self.cap as usize];
        let ghost mut s: Seq<int> = Seq::empty();
        let mut cur: u32 = mem::get_u32(mem, off + 8);
        let mut i: u32 = 0;
        while i < n
            invariant
                m == mem@,
                t == self.free(m),
                d == self.stride(),
                stride == d,
                self.fits(m),
                region == self.region(),
                1 <= n <= self.cap,
                n == self.size_word(m),
                tail == self.tail(m),
                0 <= i <= n,
                s.len() == i,
                i == 0 ==> cur == self.head(m),
                i > 0 ==> s[0] == self.head(m),
                0 < i < n ==> self.links(m, s[i - 1], cur as int),
                i == n ==> s[n - 1] == tail && !slice::flag_has_next(
                    slice::header_flag(m, self.region() + s[n - 1]),
                ),
                forall|j: int| 0 <= j < i ==> self.is_node(#[trigger] s[j]),
                forall|j: int| 0 <= j < i ==> self.is_clear(m, #[trigger] s[j]),
                forall|j: int, k: int|
                    0 <= j < i && k == j + 1 && k < i ==> self.links(
                        m,
                        #[trigger] s[j],
                        #[trigger] s[k],
                    ),
                s.no_duplicates(),
                seen@.len() == self.cap,
                forall|j: int| 0 <= j < i ==> seen@[#[trigger] s[j] / d],
                forall|k: int|
                    0 <= k < self.cap && #[trigger] seen@[k] ==> s.contains(k * d),
                self.is_free_seq(m, t) ==> t.len() == n && forall|j: int|
                    0 <= j < i ==> t[j] == #[trigger] s[j],
                self.is_free_seq(m, t) && i < n ==> t[i as int] == cur,
            decreases n - i,
        {
            proof {
                self.lemma_fits(m);
            }
            if !self.has_node(cur) {
                assert(!self.is_free_seq(m, t)) by {
                    if self.is_free_seq(m, t) {
                        assert(self.is_node(t[i as int]));
                    }
                }
                return false;
            }
            let ghost o = cur as int;
            let x: u32 = cur / stride;
            proof {
                self.lemma_node_in(o);
                let k = self.lemma_node_number(o);
                assert(x == k) by {
                    vstd::arithmetic::div_mod::lemma_div_multiples_vanish(k, d);
                    assert(k * d == d * k) by (nonlinear_arith);
                }
                assert(x * d == o);
            }
            let header = BufferHeader(region + cur as usize);
            if seen[x as usize] {
                assert(!self.is_free_seq(m, t)) by {
                    if self.is_free_seq(m, t) {
                        let j = choose|j: int| 0 <= j < s.len() && s[j] == x * d;
                        assert(t[j] == t[i as int]);
                    }
                }
                return false;
            }
            if header.size(mem) != 0 || header.start(mem) != 0 {
                assert(!self.is_free_seq(m, t)) by {
                    if self.is_free_seq(m, t) {
                        assert(self.is_clear(m, t[i as int]));
                    }
                }
                return false;
            }
            let more: bool = header.has_next(mem);
            let next: u32 = header.next_buffer_offset(mem);
            if i + 1 < n {
                if !more {
                    assert(!self.is_free_seq(m, t)) by {
                        if self.is_free_seq(m, t) {
                            assert(self.links(m, t[i as int], t[i + 1]));
                        }
                    }
                    return false;
                }
            } else if more || cur != tail {
                assert(!self.is_free_seq(m, t)) by {
                    if self.is_free_seq(m, t) {
                        assert(t.last() == t[i as int]);
                    }
                }
                return false;
            }
            let ghost seen1 = seen@;
            seen.set(x as usize, true);
            proof {
                let s1 = s;
                s = s1.push(o);
                assert(!s1.contains(o)) by {
                    if s1.contains(o) {
                        let j = choose|j: int| 0 <= j < s1.len() && s1[j] == o;
                        assert(s1[j] / d == x);
                    }
                }
                assert forall|k: int| 0 <= k < self.cap && #[trigger] seen@[k] implies s.contains(
                    k * d,
                ) by {
                    if k == x {
                        assert(s[i as int] == k * d);
                    } else {
                        assert(s1.contains(k * d));
                        let j = choose|j: int| 0 <= j < s1.len() && s1[j] == k * d;
                        assert(s[j] == k * d);
                    }
                }
                assert forall|j: int, k: int|
                    0 <= j < i + 1 && k == j + 1 && k < i + 1 implies self.links(
                    m,
                    #[trigger] s[j],
                    #[trigger] s[k],
                ) by {
                    if k < i {
                        assert(self.links(m, s1[j], s1[k]));
                    }
                }
                assert forall|j: int| 0 <= j < i + 1 implies seen@[#[trigger] s[j] / d] by {
                    if j < i {
                        let k = self.lemma_node_number(s1[j]);
                        vstd::arithmetic::div_mod::lemma_div_multiples_vanish(k, d);
                        assert(k * d == d * k) by (nonlinear_arith);
                        assert(seen1[s1[j] / d]);
                    }
                }
                if self.is_free_seq(m, t) && i + 1 < n {
                    assert(self.links(m, t[i as int], t[i + 1]));
                }
            }
            cur = next;
            i = i + 1;
        }
        proof {
            assert(s.last() == s[n - 1]);
            assert(self.is_free_seq(m, s));
            self.lemma_free_unique(m, s);
        }
        true
    }

    /// Whether the free buffers lead to the one at `o`, counted from the first one.
    fn has_free(&self, mem: &[u8], o: u32) -> (r: bool)
        requires
            self.wf(mem@),
        ensures
            r == self.free(mem@).contains(o as int),
    {
        let ghost m = mem@;
        let ghost s = self.free(m);
        proof {
            self.lemma_fits(m);
        }
        let off: usize = self.offset_in_shm as usize;
        let region: usize = off + BUFFER_LIST_HEADER_SIZE as usize;
        let n: u32 = mem::get_u32(mem, off);
        let mut cur: u32 = mem::get_u32(mem, off + 8);
        let mut i: u32 = 0;
        while i < n
            invariant
                m == mem@,
                self.wf(m),
                s == self.free(m),
                n == s.len(),
                region == self.region(),
                0 <= i <= n,
                i < n ==> cur == s[i as int],
                forall|j: int| 0 <= j < i ==> s[j] != o,
            decreases n - i,
        {
            if cur == o {
                return true;
            }
            proof {
                self.lemma_fits(m);
                assert(self.is_node(s[i as int]));
                self.lemma_node_in(s[i as int]);
                if i + 1 < n {
                    assert(self.links(m, s[i as int], s[i + 1]));
                }
            }
            cur = BufferHeader(region + cur as usize).next_buffer_offset(mem);
            i = i + 1;
        }
        false
    }

    /// Whether the header of a buffer of the list that is in use stands at `offset`.
    pub fn has_in_use(&self, mem: &[u8], offset: u32) -> (r: bool)
        requires
            self.wf(mem@),
        ensures
            r == {
                let o = offset - self.region();
                self.is_node(o) && !self.free(mem@).contains(o)
            },
    {
        proof {
            self.lemma_fits(mem@);
            if self.is_node(offset - self.region()) {
                self.lemma_node_in(offset - self.region());
            }
        }
        let region: u64 = self.offset_in_shm as u64 + BUFFER_LIST_HEADER_SIZE as u64;
        if (offset as u64) < region {
            return false;
        }
        let o: u32 = (offset as u64 - region) as u32;
        self.has_node(o) && !self.has_free(mem, o)
    }

    /// Takes hold of the list that the peer set up at a position of the region.
    pub fn mapping(mem: &[u8], offset_in_shm: u32) -> (r: Result<Self, ListError>)
        requires
            mem@.len() <= u32::MAX,
        ensures
            r is Ok <==> mappable(mem@, offset_in_shm as int),
            match r {
                Ok(l) => {
                    &&& l.offset_in_shm == offset_in_shm
                    &&& l.cap == mem::u32_at(mem@, offset_in_shm + 4)
                    &&& l.cap_per_buffer == mem::u32_at(mem@, offset_in_shm + 16)
                    &&& l.counter_offset == 24
                    &&& l.end() <= mem@.len()
                },
                Err(e) => e == map_error(mem@, offset_in_shm as int),
            },
    {
        let off: usize = offset_in_shm as usize;
        let mem_len: usize = mem.len();
        if (mem_len as u64) < offset_in_shm as u64 + BUFFER_LIST_HEADER_SIZE as u64 {
            return Err(
                ListError::NoRoom {
                    at_least: offset_in_shm as u128 + BUFFER_LIST_HEADER_SIZE as u128,
                    mem_len,
                },
            );
        }
        let cap: u32 = mem::get_u32(mem, off + 4);
        let cap_per_buffer: u32 = mem::get_u32(mem, off + 16);
        let need_size: u128 = wide_list_mem_size(cap, cap_per_buffer);
        if offset_in_shm as u128 + need_size > mem_len as u128 {
            return Err(ListError::NoRoom { at_least: need_size, mem_len });
        }
        Ok(BufferList { offset_in_shm, cap, cap_per_buffer, counter_offset: 24 })
    }
}

/// Why there is no list to be mapped at `o`.
pub open spec fn map_error(m: Seq<u8>, o: int) -> ListError {
    ListError::NoRoom {
        at_least: if m.len() < o + BUFFER_LIST_HEADER_SIZE {
            (o + BUFFER_LIST_HEADER_SIZE) as u128
        } else {
            list_mem_size(mem::u32_at(m, o + 4) as int, mem::u32_at(m, o + 16) as int) as u128
        },
        mem_len: m.len() as usize,
    }
}

/// The header at `o` describes a list that fits the region.
pub open spec fn mappable(m: Seq<u8>, o: int) -> bool {
    &&& o + BUFFER_LIST_HEADER_SIZE <= m.len()
    &&& o + list_mem_size(mem::u32_at(m, o + 4) as int, mem::u32_at(m, o + 16) as int) <= m.len()
}

/// A list that one side set up can be mapped by the other, who then finds the same buffers free.
pub proof fn law_mapping_finds_the_list(l: BufferList, peer: BufferList, m: Seq<u8>)
    requires
        l.wf(m),
        peer.offset_in_shm == l.offset_in_shm,
        peer.cap == mem::u32_at(m, l.offset_in_shm + 4),
        peer.cap_per_buffer == mem::u32_at(m, l.offset_in_shm + 16),
        peer.counter_offset == 24,
    ensures
        mappable(m, l.offset_in_shm as int),
        peer.wf(m),
        peer.free(m) == l.free(m),
{
    l.lemma_fits(m);
    assert forall|o: int| #[trigger] peer.is_node(o) == l.is_node(o) by {
        reveal(BufferList::is_node);
    }
    let s = l.free(m);
    assert(peer.is_free_seq(m, s)) by {
        assert forall|i: int| 0 <= i < s.len() implies peer.is_node(#[trigger] s[i]) && peer.is_clear(
            m,
            s[i],
        ) by {
            assert(l.is_node(s[i]) && l.is_clear(m, s[i]));
        }
        assert forall|i: int, j: int|
            0 <= i < s.len() && j == i + 1 && j < s.len() implies peer.links(
            m,
            #[trigger] s[i],
            #[trigger] s[j],
        ) by {
            assert(l.links(m, s[i], s[j]));
        }
    }
    peer.lemma_free_unique(m, s);
}

/// A list hands its buffers out in the order in which they came back, each of the size that the
/// list was set up with, and never the last one.
pub proof fn law_buffers_come_round(
    l: &BufferList,
    a: &mut [u8],
    first: Result<BufferSlice, Error>,
    b: &mut [u8],
    before: isize,
    after: isize,
)
    requires
        l.wf(old(a)@),
        call_ensures(BufferList::remain, (l, &*old(a)), before),
        call_ensures(BufferList::pop, (l, a), first),
        old(b)@ == final(a)@,
        first is Ok ==> call_ensures(BufferList::push, (l, b, first->Ok_0), ()),
        call_ensures(BufferList::remain, (l, &*final(b)), after),
    ensures
        first is Ok <==> before > 0,
        first is Err ==> first->Err_0 is NoMoreBuffer && final(a)@ == old(a)@,
        first is Ok ==> {
            &&& first->Ok_0.cap == l.cap_per_buffer
            &&& first->Ok_0.offset_in_shm == l.region() + l.free(old(a)@)[0]
            &&& l.free(final(a)@).len() == l.free(old(a)@).len() - 1
            &&& l.free(final(b)@).last() == l.free(old(a)@)[0]
            &&& l.free(final(b)@) =~= l.free(old(a)@).skip(1) + seq![l.free(old(a)@)[0]]
            &&& after == before
        },
{
}

/// A list that was just set up hands out all of its buffers but one.
pub proof fn law_new_list_has_all_buffers(
    n: u32,
    size: u32,
    m: &mut [u8],
    at: u32,
    r: Result<BufferList, ListError>,
    left: isize,
)
    requires
        call_ensures(BufferList::create, (n, size, m, at), r),
        r is Ok,
        call_ensures(BufferList::remain, (&r->Ok_0, &*final(m)), left),
    ensures
        left == n - 1,
        r->Ok_0.cap_per_buffer == size,
        r->Ok_0.offset_in_shm == at,
{
    assert(r->Ok_0.all_nodes().len() == n);
}

} // verus!
