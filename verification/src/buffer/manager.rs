//! The manager of a buffer region.

use vstd::arithmetic::div_mod::lemma_fundamental_div_mod;
use vstd::prelude::*;

use crate::buffer::list;
use crate::buffer::list::{BufferList, ListError, BUFFER_LIST_HEADER_SIZE};
use crate::buffer::slice;
use crate::buffer::slice::{BufferHeader, BufferSlice, SliceData, SliceList};
use crate::config::SizePercentPair;
use crate::consts::MemMapType;
use crate::error::Error;
use crate::mem;

verus! {

/// The bytes in front of a buffer: capacity 4, size 4, start 4, next 4, flag 4.
pub const BUFFER_HEADER_SIZE: u32 = 20;

pub const BUFFER_CAP_OFFSET: u32 = 0;

pub const BUFFER_SIZE_OFFSET: u32 = 4;

pub const BUFFER_DATA_START_OFFSET: u32 = 8;

pub const NEXT_BUFFER_OFFSET: u32 = 12;

pub const BUFFER_FLAG_OFFSET: u32 = 16;

pub const BUFFER_MANAGER_HEADER_SIZE: u32 = 8;

pub const BM_CAP_OFFSET: u32 = 4;

pub const HAS_NEXT_BUFFER_FLAG: u8 = 1;

pub const SLICE_IN_USED_FLAG: u8 = 2;

/// Why a buffer region could not be set up, mapped or read.
#[derive(Clone, Copy, Debug, PartialEq, Eq, Structural)]
pub enum ManagerError {
    /// The region is shorter than the position of the manager demands.
    TooSmall { at_least: u64, mem_len: usize },
    /// The percentages of the lists add up to more than a hundred.
    PercentSum,
    /// A list could not be set up or mapped.
    List(ListError),
    /// The header names no list, or more bytes than there are.
    BrokenHeader { list_num: u16, at_least: u64, mem_len: usize },
    /// A buffer's header would lie behind the region.
    UnexpectedOffset { offset: u32, mem_len: usize },
    /// A buffer would end behind the region.
    UnexpectedEnd { end: u64, offset: u32, mem_len: usize },
}

/// The free lists of a buffer region, in ascending order of their buffers' capacity.
///
/// Layout of the region: number of lists 2, reserved 2, used length 4, then the lists.
#[derive(Debug)]
pub struct BufferManager {
    pub lists: Vec<BufferList>,
    pub min_slice_size: u32,
    pub max_slice_size: u32,
    pub ref_count: i32,
    pub mem_map_type: MemMapType,
    pub path: String,
    pub memfd: i32,
}

/// From slice `n` of `ss` on, one is the buffer of the region at `o`.
pub open spec fn is_one_of(ss: Seq<BufferSlice>, n: int, o: int) -> bool {
    exists|i: int|
        n <= i < ss.len() && (#[trigger] ss[i]).is_from_shm && ss[i].offset_in_shm == o
}

impl BufferManager {
    /// The free buffers of every list.
    pub open spec fn frees(self, m: Seq<u8>) -> Seq<Seq<int>> {
        Seq::new(self.lists@.len(), |i: int| self.lists@[i].free(m))
    }

    /// The counts of buffers in use of every list.
    pub open spec fn counters(self, m: Seq<u8>) -> Seq<u32> {
        Seq::new(self.lists@.len(), |i: int| self.lists@[i].counter(m))
    }

    /// The count of every list says how many of its buffers are not free. It is so as long as this
    /// side alone takes buffers out and puts them back: each side has counts of its own.
    pub open spec fn in_balance(self, m: Seq<u8>) -> bool {
        forall|i: int|
            0 <= i < self.lists@.len() ==> self.counters(m)[i] + (
            #[trigger] self.frees(m)[i]).len() == self.lists@[i].cap
    }

    /// The lists do not overlap.
    pub open spec fn lists_apart(self) -> bool {
        &&& self.lists@.len() >= 1
        &&& forall|i: int, j: int|
            0 <= i < j < self.lists@.len() ==> (#[trigger] self.lists@[i]).end() <= (
            #[trigger] self.lists@[j]).offset_in_shm
        &&& self.min_slice_size == self.lists@[0].cap_per_buffer
        &&& self.max_slice_size == self.lists@.last().cap_per_buffer
    }

    /// Every list is well-formed, and they are apart.
    pub open spec fn wf(self, m: Seq<u8>) -> bool {
        &&& self.lists_apart()
        &&& forall|i: int| 0 <= i < self.lists@.len() ==> (#[trigger] self.lists@[i]).wf(m)
    }

    /// The buffer whose header stands at `o` is one of list `i` and in use.
    pub open spec fn in_use(self, m: Seq<u8>, i: int, o: int) -> bool {
        &&& 0 <= i < self.lists@.len()
        &&& self.lists@[i].is_node(o - self.lists@[i].region())
        &&& !self.lists@[i].free(m).contains(o - self.lists@[i].region())
    }

    /// A buffer in use has its header at `o`.
    pub open spec fn is_allocated(self, m: Seq<u8>, o: int) -> bool {
        exists|i: int| #[trigger] self.in_use(m, i, o)
    }

    /// The byte at `i` is none that the lists of this manager write to: it lies in front of them,
    /// behind them or between them, is reserved, or belongs to the counts of the other side.
    pub open spec fn is_foreign(self, i: int) -> bool {
        forall|k: int| 0 <= k < self.lists@.len() ==> !(#[trigger] self.lists@[k]).holds(i)
    }

    /// Buffers in use, other than those in `own`, stay in use and keep header and contents. What
    /// is not of the lists stays.
    #[verifier::opaque]
    pub open spec fn keeps(self, a: Seq<u8>, b: Seq<u8>, own: Set<int>) -> bool {
        &&& a.len() == b.len()
        &&& forall|o: int| #[trigger]
            self.is_allocated(a, o) && !own.contains(o) ==> {
                &&& self.is_allocated(b, o)
                &&& mem::same_range(
                    a,
                    b,
                    o,
                    o + BUFFER_HEADER_SIZE + slice::header_cap(a, o),
                )
            }
        &&& forall|i: int|
            0 <= i < a.len() && #[trigger] self.is_foreign(i) ==> a[i] == b[i]
    }

    /// The slice is on the heap, or it is a buffer of this region that is in use.
    pub open spec fn owns(self, m: Seq<u8>, s: BufferSlice) -> bool {
        if s.is_from_shm {
            &&& self.is_allocated(m, s.offset_in_shm as int)
            &&& s.is_shm_at(
                s.offset_in_shm as int,
                slice::header_cap(m, s.offset_in_shm as int) as int,
            )
        } else {
            s.data is Heap && s.buffer_header is None
        }
    }

    /// A buffer in use lies inside its list and has its list's capacity.
    pub proof fn lemma_in_use(self, m: Seq<u8>, i: int, o: int)
        requires
            self.wf(m),
            self.in_use(m, i, o),
        ensures
            slice::header_cap(m, o) == self.lists@[i].cap_per_buffer,
            self.lists@[i].region() <= o,
            o + BUFFER_HEADER_SIZE + slice::header_cap(m, o) <= self.lists@[i].end() <= m.len(),
            m.len() <= u32::MAX,
    {
        let l = self.lists@[i];
        l.lemma_node_in(o - l.region());
        l.lemma_fits(m);
    }

    /// Two buffers in use do not overlap.
    pub proof fn law_buffers_in_use_do_not_overlap(self, m: Seq<u8>, i: int, o: int, j: int, p: int)
        requires
            self.wf(m),
            self.in_use(m, i, o),
            self.in_use(m, j, p),
            o != p,
        ensures
            o + BUFFER_HEADER_SIZE + slice::header_cap(m, o) <= p || p + BUFFER_HEADER_SIZE
                + slice::header_cap(m, p) <= o,
    {
        self.lemma_in_use(m, i, o);
        self.lemma_in_use(m, j, p);
        if i == j {
            let l = self.lists@[i];
            l.lemma_nodes_apart(o - l.region(), p - l.region());
        } else if i < j {
            assert(self.lists@[i].end() <= self.lists@[j].offset_in_shm);
        } else {
            assert(self.lists@[j].end() <= self.lists@[i].offset_in_shm);
        }
    }

    /// Every list but list `k` is as it was, where only list `k` changed.
    proof fn lemma_others_untouched(self, a: Seq<u8>, b: Seq<u8>, k: int)
        requires
            self.wf(a),
            0 <= k < self.lists@.len(),
            a.len() == b.len(),
            mem::same_range(a, b, 0, self.lists@[k].offset_in_shm as int),
            mem::same_range(a, b, self.lists@[k].end(), a.len() as int),
        ensures
            forall|i: int|
                0 <= i < self.lists@.len() && i != k ==> {
                    &&& (#[trigger] self.lists@[i]).wf(b)
                    &&& self.lists@[i].free(b) == self.lists@[i].free(a)
                    &&& self.lists@[i].counter(b) == self.lists@[i].counter(a)
                },
    {
        assert forall|i: int| 0 <= i < self.lists@.len() && i != k implies {
            &&& (#[trigger] self.lists@[i]).wf(b)
            &&& self.lists@[i].free(b) == self.lists@[i].free(a)
            &&& self.lists@[i].counter(b) == self.lists@[i].counter(a)
        } by {
            self.lists@[i].lemma_fits(a);
            self.lists@[k].lemma_fits(a);
            if i < k {
                assert(self.lists@[i].end() <= self.lists@[k].offset_in_shm);
            } else {
                assert(self.lists@[k].end() <= self.lists@[i].offset_in_shm);
            }
            Self::lemma_list_same(self.lists@[i], a, b);
        }
    }

    /// The first free buffer of list `k` was taken out.
    proof fn lemma_taken(self, a: Seq<u8>, b: Seq<u8>, k: int)
        requires
            self.wf(a),
            0 <= k < self.lists@.len(),
            a.len() == b.len(),
            self.lists@[k].wf(b),
            self.lists@[k].free(a).len() > 1,
            self.lists@[k].free(b) == self.lists@[k].free(a).skip(1),
            self.lists@[k].touches_one(a, b, self.lists@[k].free(a)[0]),
        ensures
            self.wf(b),
            self.frees(b) == self.frees(a).update(k, self.frees(a)[k].skip(1)),
            self.counters(b) == self.counters(a).update(k, self.lists@[k].counter(b)),
            self.keeps(a, b, Set::empty()),
            self.in_use(b, k, self.lists@[k].region() + self.frees(a)[k][0]),
            !self.is_allocated(a, self.lists@[k].region() + self.frees(a)[k][0]),
    {
        let l = self.lists@[k];
        let s = l.free(a);
        let o = s[0];
        l.lemma_fits(a);
        assert(l.is_node(o));
        l.lemma_node_in(o);
        self.lemma_others_untouched(a, b, k);
        assert(self.frees(b) =~= self.frees(a).update(k, s.skip(1)));
        assert(self.counters(b) =~= self.counters(a).update(k, l.counter(b)));
        assert(!s.skip(1).contains(o)) by {
            if s.skip(1).contains(o) {
                let j = choose|j: int| 0 <= j < s.skip(1).len() && s.skip(1)[j] == o;
                assert(s[j + 1] == s[0]);
            }
        }
        assert(self.in_use(b, k, l.region() + o));
        assert(s.contains(o));
        assert(!self.is_allocated(a, l.region() + o)) by {
            if self.is_allocated(a, l.region() + o) {
                let p = l.region() + o;
                let i = choose|i: int| self.in_use(a, i, p);
                self.lemma_in_use(a, i, p);
                if i < k {
                    assert(self.lists@[i].end() <= self.lists@[k].offset_in_shm);
                } else if k < i {
                    assert(self.lists@[k].end() <= self.lists@[i].offset_in_shm);
                }
            }
        }
        assert(self.keeps(a, b, Set::empty())) by {
            reveal(BufferManager::keeps);
            assert forall|p: int| #[trigger] self.is_allocated(a, p) implies {
                &&& self.is_allocated(b, p)
                &&& mem::same_range(a, b, p, p + BUFFER_HEADER_SIZE + slice::header_cap(a, p))
            } by {
                let i = choose|i: int| self.in_use(a, i, p);
                self.lemma_in_use(a, i, p);
                if i == k {
                    l.lemma_nodes_apart(p - l.region(), o);
                    assert forall|x: int| #[trigger] s.skip(1).contains(x) implies s.contains(
                        x,
                    ) by {
                        let j = choose|j: int| 0 <= j < s.skip(1).len() && s.skip(1)[j] == x;
                        assert(s[j + 1] == x);
                    }
                } else if i < k {
                    assert(self.lists@[i].end() <= self.lists@[k].offset_in_shm);
                } else {
                    assert(self.lists@[k].end() <= self.lists@[i].offset_in_shm);
                }
                assert(self.in_use(b, i, p));
            }
        }
    }

    /// A buffer in use was put back at the end of list `k`.
    proof fn lemma_returned(self, a: Seq<u8>, b: Seq<u8>, k: int, q: int)
        requires
            self.wf(a),
            self.in_use(a, k, q),
            a.len() == b.len(),
            self.lists@[k].wf(b),
            self.lists@[k].free(b) == self.lists@[k].free(a).push(q - self.lists@[k].region()),
            self.lists@[k].touches_two(
                a,
                b,
                self.lists@[k].free(a).last(),
                q - self.lists@[k].region(),
            ),
        ensures
            self.wf(b),
            self.frees(b) == self.frees(a).update(
                k,
                self.frees(a)[k].push(q - self.lists@[k].region()),
            ),
            self.counters(b) == self.counters(a).update(k, self.lists@[k].counter(b)),
            self.keeps(a, b, set![q]),
            !self.is_allocated(b, q),
    {
        let l = self.lists@[k];
        let s = l.free(a);
        let z = s.last();
        let o = q - l.region();
        l.lemma_fits(a);
        assert(l.is_node(s[s.len() - 1]));
        l.lemma_node_in(z);
        l.lemma_node_in(o);
        self.lemma_others_untouched(a, b, k);
        assert(self.frees(b) =~= self.frees(a).update(k, s.push(o)));
        assert(self.counters(b) =~= self.counters(a).update(k, l.counter(b)));
        assert(s.push(o)[s.len() as int] == o);
        assert(!self.is_allocated(b, q)) by {
            if self.is_allocated(b, q) {
                let i = choose|i: int| self.in_use(b, i, q);
                self.lemma_in_use(b, i, q);
                if i < k {
                    assert(self.lists@[i].end() <= self.lists@[k].offset_in_shm);
                } else if k < i {
                    assert(self.lists@[k].end() <= self.lists@[i].offset_in_shm);
                }
            }
        }
        assert(self.keeps(a, b, set![q])) by {
            reveal(BufferManager::keeps);
            assert forall|p: int| #[trigger]
                self.is_allocated(a, p) && !set![q].contains(p) implies {
                &&& self.is_allocated(b, p)
                &&& mem::same_range(a, b, p, p + BUFFER_HEADER_SIZE + slice::header_cap(a, p))
            } by {
                let i = choose|i: int| self.in_use(a, i, p);
                self.lemma_in_use(a, i, p);
                if i == k {
                    assert(s.contains(z)) by {
                        assert(s[s.len() - 1] == z);
                    }
                    l.lemma_nodes_apart(p - l.region(), o);
                    l.lemma_nodes_apart(p - l.region(), z);
                    assert(!s.push(o).contains(p - l.region())) by {
                        if s.push(o).contains(p - l.region()) {
                            let j = choose|j: int|
                                0 <= j < s.push(o).len() && s.push(o)[j] == p - l.region();
                            if j < s.len() {
                                assert(s[j] == p - l.region());
                            }
                        }
                    }
                } else if i < k {
                    assert(self.lists@[i].end() <= self.lists@[k].offset_in_shm);
                } else {
                    assert(self.lists@[k].end() <= self.lists@[i].offset_in_shm);
                }
                assert(self.in_use(b, i, p));
            }
        }
    }

    /// What stands in a buffer in use, behind the capacity in its header, is its owner's alone.
    pub proof fn lemma_cell_written(self, a: Seq<u8>, b: Seq<u8>, q: int)
        requires
            self.wf(a),
            self.is_allocated(a, q),
            a.len() == b.len(),
            mem::same_range(a, b, 0, q + 4),
            mem::same_range(
                a,
                b,
                q + BUFFER_HEADER_SIZE + slice::header_cap(a, q),
                a.len() as int,
            ),
        ensures
            self.wf(b),
            self.frees(b) == self.frees(a),
            self.counters(b) == self.counters(a),
            self.keeps(a, b, set![q]),
            forall|o: int| self.is_allocated(b, o) == self.is_allocated(a, o),
            slice::header_cap(b, q) == slice::header_cap(a, q),
    {
        let k = choose|k: int| self.in_use(a, k, q);
        self.lemma_in_use(a, k, q);
        let l = self.lists@[k];
        let o = q - l.region();
        let s = l.free(a);
        l.lemma_fits(a);
        l.lemma_node_in(o);
        assert forall|p: int| #[trigger] l.is_node(p) implies mem::same_range(
            a,
            b,
            l.region() + p,
            l.region() + p + 4,
        ) by {
            l.lemma_node_in(p);
            l.lemma_nodes_apart(p, o);
        }
        l.lemma_caps_frame(a, b);
        assert forall|i: int| 0 <= i < s.len() implies mem::same_range(
            a,
            b,
            l.region() + #[trigger] s[i],
            l.region() + s[i] + BUFFER_HEADER_SIZE,
        ) by {
            assert(l.is_node(s[i]));
            l.lemma_node_in(s[i]);
            l.lemma_nodes_apart(s[i], o);
            assert(s.contains(s[i]));
        }
        l.lemma_frame(a, b);
        mem::lemma_u32_at_same(a, b, l.offset_in_shm + l.counter_offset);
        self.lemma_others_untouched(a, b, k);
        assert(self.frees(b) =~= self.frees(a));
        assert(self.counters(b) =~= self.counters(a));
        assert forall|p: int| self.is_allocated(b, p) == self.is_allocated(a, p) by {
            if self.is_allocated(a, p) {
                let i = choose|i: int| self.in_use(a, i, p);
                assert(self.in_use(b, i, p));
            }
            if self.is_allocated(b, p) {
                let i = choose|i: int| self.in_use(b, i, p);
                assert(self.in_use(a, i, p));
            }
        }
        assert(self.keeps(a, b, set![q])) by {
            reveal(BufferManager::keeps);
            assert forall|p: int| #[trigger]
                self.is_allocated(a, p) && !set![q].contains(p) implies {
                &&& self.is_allocated(b, p)
                &&& mem::same_range(a, b, p, p + BUFFER_HEADER_SIZE + slice::header_cap(a, p))
            } by {
                let i = choose|i: int| self.in_use(a, i, p);
                self.lemma_in_use(a, i, p);
                self.law_buffers_in_use_do_not_overlap(a, i, p, k, q);
                assert(self.is_allocated(a, p) == self.is_allocated(b, p));
            }
        }
        mem::lemma_u32_at_same(a, b, q);
    }

    /// Changes to one's own buffers, then to these and newly taken ones, are changes to one's own.
    pub proof fn lemma_keeps_trans(
        self,
        a: Seq<u8>,
        b: Seq<u8>,
        c: Seq<u8>,
        own: Set<int>,
        own2: Set<int>,
    )
        requires
            self.keeps(a, b, own),
            self.keeps(b, c, own2),
            forall|o: int| #[trigger]
                own2.contains(o) ==> own.contains(o) || !self.is_allocated(a, o),
        ensures
            self.keeps(a, c, own),
    {
        reveal(BufferManager::keeps);
        assert forall|o: int| #[trigger] self.is_allocated(a, o) && !own.contains(o) implies {
            &&& self.is_allocated(c, o)
            &&& mem::same_range(a, c, o, o + BUFFER_HEADER_SIZE + slice::header_cap(a, o))
        } by {
            assert(self.is_allocated(b, o));
            mem::lemma_u32_at_same(a, b, o);
            assert(!own2.contains(o));
        }
    }

    /// What stays while some buffers change stays while more of them may.
    pub proof fn lemma_keeps_wider(self, a: Seq<u8>, b: Seq<u8>, own: Set<int>, wide: Set<int>)
        requires
            self.keeps(a, b, own),
            own.subset_of(wide),
        ensures
            self.keeps(a, b, wide),
    {
        reveal(BufferManager::keeps);
    }

    /// A slice that is not among the changed ones keeps its buffer, its bytes and its owner.
    pub proof fn lemma_keeps_slice(self, a: Seq<u8>, b: Seq<u8>, own: Set<int>, s: BufferSlice)
        requires
            self.wf(a),
            self.keeps(a, b, own),
            self.owns(a, s),
            s.is_from_shm ==> !own.contains(s.offset_in_shm as int),
            s.wf(a),
        ensures
            self.owns(b, s),
            s.wf(b),
            s.bytes(b) == s.bytes(a),
            s.unread(b) == s.unread(a),
            s.is_from_shm ==> {
                let o = s.offset_in_shm as int;
                &&& mem::same_range(a, b, o, o + BUFFER_HEADER_SIZE + s.cap)
                &&& slice::header_cap(b, o) == slice::header_cap(a, o)
                &&& slice::header_size(b, o) == slice::header_size(a, o)
                &&& slice::header_start(b, o) == slice::header_start(a, o)
                &&& slice::header_next(b, o) == slice::header_next(a, o)
                &&& slice::header_flag(b, o) == slice::header_flag(a, o)
            },
    {
        reveal(BufferManager::keeps);
        if s.is_from_shm {
            let o = s.offset_in_shm as int;
            assert(self.is_allocated(a, o));
            mem::lemma_u32_at_same(a, b, o);
            mem::lemma_u32_at_same(a, b, o + 4);
            mem::lemma_u32_at_same(a, b, o + 8);
            mem::lemma_u32_at_same(a, b, o + 12);
            assert(a[o + 16] == b[o + 16]);
            assert(s.bytes(b) =~= s.bytes(a));
        }
    }

    /// The first list whose buffers hold `size` bytes, counted from list `i` on.
    pub open spec fn first_fit(self, size: int, i: int) -> int
        decreases self.lists@.len() - i,
    {
        if i >= self.lists@.len() || size <= self.lists@[i].cap_per_buffer {
            i
        } else {
            self.first_fit(size, i + 1)
        }
    }

    /// A buffer of at least `size` bytes can be handed out: the largest buffers hold that much,
    /// and the first list whose buffers do has one to spare.
    pub open spec fn can_alloc(self, m: Seq<u8>, size: int) -> bool {
        &&& size <= self.max_slice_size
        &&& self.first_fit(size, 0) < self.lists@.len()
        &&& self.frees(m)[self.first_fit(size, 0)].len() > 1
    }

    /// `s` is the first free buffer of list `k`, which is handed out on the way from `a` to `b`.
    pub open spec fn hands_out(self, a: Seq<u8>, b: Seq<u8>, k: int, s: BufferSlice) -> bool {
        let o = self.lists@[k].region() + self.frees(a)[k][0];
        &&& 0 <= k < self.lists@.len()
        &&& self.frees(a)[k].len() > 1
        &&& s.is_shm_at(o, self.lists@[k].cap_per_buffer as int)
        &&& s.is_fresh()
        &&& self.frees(b) == self.frees(a).update(k, self.frees(a)[k].skip(1))
        &&& self.counters(b) == self.counters(a).update(k, list::count_up(self.counters(a)[k]))
        &&& self.keeps(a, b, Set::empty())
        &&& self.owns(b, s)
        &&& s.wf(b)
        &&& !self.is_allocated(a, o)
        &&& slice::header_size(b, o) == 0
        &&& slice::header_start(b, o) == 0
        &&& slice::header_flag(b, o) == 0u8 | SLICE_IN_USED_FLAG
    }

    /// Takes a buffer out of list `k`.
    fn pop_list(&self, mem: &mut [u8], k: usize) -> (r: Result<BufferSlice, Error>)
        requires
            self.wf(old(mem)@),
            k < self.lists@.len(),
        ensures
            self.wf(final(mem)@),
            final(mem)@.len() == old(mem)@.len(),
            r is Ok <==> self.frees(old(mem)@)[k as int].len() > 1,
            r matches Err(e) ==> e == Error::NoMoreBuffer && final(mem)@ == old(mem)@,
            r matches Ok(s) ==> self.hands_out(old(mem)@, final(mem)@, k as int, s),
    {
        let ghost m0 = mem@;
        let r = self.lists[k].pop(mem);
        proof {
            if r is Ok {
                let l = self.lists@[k as int];
                self.lemma_taken(m0, mem@, k as int);
                let o = l.region() + l.free(m0)[0];
                self.lemma_in_use(mem@, k as int, o);
                assert(self.is_allocated(mem@, o));
                assert(self.counters(mem@)[k as int] == l.counter(mem@));
            }
        }
        r
    }

    /// Hands out one buffer of at least `size` bytes.
    pub fn alloc_shm_buffer(&self, mem: &mut [u8], size: u32) -> (r: Result<BufferSlice, Error>)
        requires
            self.wf(old(mem)@),
        ensures
            self.wf(final(mem)@),
            final(mem)@.len() == old(mem)@.len(),
            r is Ok <==> self.can_alloc(old(mem)@, size as int),
            r matches Err(e) ==> e == Error::NoMoreBuffer && final(mem)@ == old(mem)@,
            r matches Ok(s) ==> {
                &&& self.hands_out(
                    old(mem)@,
                    final(mem)@,
                    self.first_fit(size as int, 0),
                    s,
                )
                &&& size <= s.cap
            },
    {
        if size <= self.max_slice_size {
            let n: usize = self.lists.len();
            let mut i: usize = 0;
            while i < n
                invariant
                    n == self.lists@.len(),
                    0 <= i <= n,
                    self.wf(mem@),
                    mem@ == old(mem)@,
                    size <= self.max_slice_size,
                    self.first_fit(size as int, 0) == self.first_fit(size as int, i as int),
                decreases n - i,
            {
                if size <= self.lists[i].cap_per_buffer {
                    return self.pop_list(mem, i);
                }
                i += 1;
            }
        }
        Err(Error::NoMoreBuffer)
    }

    /// The buffers that are taken, from list `i` down to the first, until they hold `remain`
    /// bytes: each as its list and its position in the list. From list `i` the first `c` free
    /// buffers are gone already.
    pub open spec fn plan(self, frees: Seq<Seq<int>>, i: int, c: int, remain: int) -> Seq<(int, int)>
        decreases i + 1, frees[i].len() - c,
    {
        if i < 0 || remain <= 0 {
            Seq::empty()
        } else if frees[i].len() - c <= 1 {
            self.plan(frees, i - 1, 0, remain)
        } else {
            seq![(i, frees[i][c])] + self.plan(
                frees,
                i,
                c + 1,
                remain - self.lists@[i].cap_per_buffer,
            )
        }
    }

    /// The free buffers after those of `taken` were taken out one by one.
    pub open spec fn without(frees: Seq<Seq<int>>, taken: Seq<(int, int)>) -> Seq<Seq<int>>
        decreases taken.len(),
    {
        if taken.len() == 0 {
            frees
        } else {
            let f = Self::without(frees, taken.drop_last());
            let i = taken.last().0;
            f.update(i, f[i].skip(1))
        }
    }

    /// The counts of the lists after the buffers of `taken` were taken out one by one.
    pub open spec fn counted_out(counts: Seq<u32>, taken: Seq<(int, int)>) -> Seq<u32>
        decreases taken.len(),
    {
        if taken.len() == 0 {
            counts
        } else {
            let c = Self::counted_out(counts, taken.drop_last());
            let i = taken.last().0;
            c.update(i, list::count_up(c[i]))
        }
    }

    /// How many bytes the buffers of `taken` hold.
    pub open spec fn taken_size(self, taken: Seq<(int, int)>) -> int
        decreases taken.len(),
    {
        if taken.len() == 0 {
            0
        } else {
            self.taken_size(taken.drop_last()) + self.lists@[taken.last().0].cap_per_buffer
        }
    }

    /// `s` is the buffer that `t` stands for, handed out and not written to.
    pub open spec fn is_taken(self, t: (int, int), s: BufferSlice) -> bool {
        &&& 0 <= t.0 < self.lists@.len()
        &&& s.is_shm_at(
            self.lists@[t.0].region() + t.1,
            self.lists@[t.0].cap_per_buffer as int,
        )
        &&& s.is_fresh()
    }

    /// A buffer of the region `m` that was handed out and not written to, in use since `a`.
    pub open spec fn is_new(self, a: Seq<u8>, m: Seq<u8>, s: BufferSlice) -> bool {
        let o = s.offset_in_shm as int;
        &&& s.is_from_shm
        &&& s.is_fresh()
        &&& s.cap > 0
        &&& s.wf(m)
        &&& self.owns(m, s)
        &&& !self.is_allocated(a, o)
        &&& slice::header_size(m, o) == 0
        &&& slice::header_start(m, o) == 0
        &&& slice::header_flag(m, o) == 0u8 | SLICE_IN_USED_FLAG
    }

    /// A new buffer stays one while others change.
    pub proof fn lemma_is_new_kept(
        self,
        a: Seq<u8>,
        b: Seq<u8>,
        c: Seq<u8>,
        own: Set<int>,
        s: BufferSlice,
    )
        requires
            self.wf(b),
            self.keeps(b, c, own),
            self.is_new(a, b, s),
            !own.contains(s.offset_in_shm as int),
        ensures
            self.is_new(a, c, s),
    {
        self.lemma_keeps_slice(b, c, own, s);
    }

    /// Handing out a buffer puts no other in use.
    pub proof fn lemma_allocated_out(self, a: Seq<u8>, b: Seq<u8>, k: int, s: BufferSlice, p: int)
        requires
            self.hands_out(a, b, k, s),
            self.is_allocated(b, p),
        ensures
            self.is_allocated(a, p) || p == s.offset_in_shm,
    {
        let i = choose|i: int| self.in_use(b, i, p);
        let x = p - self.lists@[i].region();
        assert(self.frees(a)[i] == self.lists@[i].free(a));
        assert(self.frees(b)[i] == self.lists@[i].free(b));
        let f = self.lists@[i].free(a);
        if f.contains(x) {
            let j = choose|j: int| 0 <= j < f.len() && f[j] == x;
            if i == k && j > 0 {
                assert(self.lists@[i].free(b)[j - 1] == x);
            } else if i != k {
                assert(self.lists@[i].free(b)[j] == x);
            }
        } else {
            assert(self.in_use(a, i, p));
        }
    }

    /// Hands out buffers, the largest first, until they hold `size` bytes or none is left, and
    /// appends them to `slices`. Tells how many bytes they hold.
    pub fn alloc_shm_buffers(&self, mem: &mut [u8], slices: &mut SliceList, size: u32) -> (r: i64)
        requires
            self.wf(old(mem)@),
        ensures
            self.wf(final(mem)@),
            final(mem)@.len() == old(mem)@.len(),
            final(slices).write_pos() == old(slices).write_pos(),
            ({
                let taken = self.plan(
                    self.frees(old(mem)@),
                    self.lists@.len() - 1,
                    0,
                    size as int,
                );
                let n = old(slices)@.len() as int;
                &&& r == self.taken_size(taken)
                &&& 0 <= r <= size + u32::MAX
                &&& self.frees(final(mem)@) == Self::without(self.frees(old(mem)@), taken)
                &&& self.counters(final(mem)@) == Self::counted_out(
                    self.counters(old(mem)@),
                    taken,
                )
                &&& final(slices)@.len() == n + taken.len()
                &&& final(slices)@.take(n) == old(slices)@
                &&& forall|j: int|
                    0 <= j < taken.len() ==> self.is_taken(
                        taken[j],
                        #[trigger] final(slices)@[n + j],
                    )
            }),
            forall|j: int|
                old(slices)@.len() <= j < final(slices)@.len() ==> self.is_new(
                    old(mem)@,
                    final(mem)@,
                    #[trigger] final(slices)@[j],
                ),
            forall|j: int, k: int|
                old(slices)@.len() <= j < k < final(slices)@.len() ==> (
                #[trigger] final(slices)@[j]).offset_in_shm != (
                #[trigger] final(slices)@[k]).offset_in_shm,
            self.in_balance(old(mem)@) ==> self.in_balance(final(mem)@),
            self.keeps(old(mem)@, final(mem)@, Set::empty()),
            forall|o: int| #[trigger]
                self.is_allocated(final(mem)@, o) ==> self.is_allocated(old(mem)@, o) || is_one_of(
                    final(slices)@,
                    old(slices)@.len() as int,
                    o,
                ),
    {
        let ghost m0 = mem@;
        let ghost f0 = self.frees(m0);
        let ghost s0 = slices@;
        let ghost n = s0.len() as int;
        let ghost last = self.lists@.len() - 1;
        let ghost goal = self.plan(f0, last, 0, size as int);
        let ghost mut taken: Seq<(int, int)> = Seq::empty();
        let mut remain: i64 = size as i64;
        let mut alloc_size: i64 = 0;
        let mut i: usize = self.lists.len();
        proof {
            reveal(BufferManager::keeps);
            assert(slices@.take(n) =~= s0);
            assert(taken + goal =~= goal);
        }
        while i > 0 && remain > 0
            invariant
                self.wf(mem@),
                self.wf(m0),
                f0 == self.frees(m0),
                n == s0.len(),
                0 <= i <= self.lists@.len(),
                mem@.len() == m0.len(),
                slices.write_pos() == old(slices).write_pos(),
                remain == size - alloc_size,
                0 <= alloc_size <= size + u32::MAX,
                alloc_size == self.taken_size(taken),
                goal == taken + self.plan(f0, i - 1, 0, remain as int),
                self.frees(mem@) == Self::without(f0, taken),
                self.counters(mem@) == Self::counted_out(self.counters(m0), taken),
                self.in_balance(m0) ==> self.in_balance(mem@),
                forall|j: int| 0 <= j < i ==> self.frees(mem@)[j] == f0[j],
                slices@.len() == n + taken.len(),
                slices@.take(n) == s0,
                forall|j: int|
                    0 <= j < taken.len() ==> self.is_taken(taken[j], #[trigger] slices@[n + j]),
                forall|j: int|
                    n <= j < slices@.len() ==> self.is_new(m0, mem@, #[trigger] slices@[j]),
                forall|j: int, k: int|
                    n <= j < k < slices@.len() ==> (#[trigger] slices@[j]).offset_in_shm != (
                    #[trigger] slices@[k]).offset_in_shm,
                self.keeps(m0, mem@, Set::empty()),
                forall|o: int| #[trigger]
                    self.is_allocated(mem@, o) ==> self.is_allocated(m0, o) || is_one_of(
                        slices@,
                        n,
                        o,
                    ),
            decreases i,
        {
            i -= 1;
            let ghost mut c: int = 0;
            let mut more: bool = true;
            assert(f0[i as int].skip(0) =~= f0[i as int]);
            while more && remain > 0
                invariant
                    self.wf(mem@),
                    self.wf(m0),
                    f0 == self.frees(m0),
                    n == s0.len(),
                    0 <= i < self.lists@.len(),
                    0 <= c < f0[i as int].len(),
                    mem@.len() == m0.len(),
                    slices.write_pos() == old(slices).write_pos(),
                    remain == size - alloc_size,
                    0 <= alloc_size <= size + u32::MAX,
                    alloc_size == self.taken_size(taken),
                    goal == taken + self.plan(f0, i as int, c, remain as int),
                    self.frees(mem@) == Self::without(f0, taken),
                    self.counters(mem@) == Self::counted_out(self.counters(m0), taken),
                    self.in_balance(m0) ==> self.in_balance(mem@),
                    forall|j: int| 0 <= j < i ==> self.frees(mem@)[j] == f0[j],
                    self.frees(mem@)[i as int] == f0[i as int].skip(c),
                    !more ==> f0[i as int].len() - c <= 1,
                    slices@.len() == n + taken.len(),
                    slices@.take(n) == s0,
                    forall|j: int|
                        0 <= j < taken.len() ==> self.is_taken(
                            taken[j],
                            #[trigger] slices@[n + j],
                        ),
                    forall|j: int|
                        n <= j < slices@.len() ==> self.is_new(m0, mem@, #[trigger] slices@[j]),
                    forall|j: int, k: int|
                        n <= j < k < slices@.len() ==> (#[trigger] slices@[j]).offset_in_shm != (
                        #[trigger] slices@[k]).offset_in_shm,
                    self.keeps(m0, mem@, Set::empty()),
                    forall|o: int| #[trigger]
                        self.is_allocated(mem@, o) ==> self.is_allocated(m0, o) || is_one_of(
                            slices@,
                            n,
                            o,
                        ),
                decreases
                    if more {
                        f0[i as int].len() - c
                    } else {
                        0
                    },
            {
                let ghost m1 = mem@;
                let ghost t = (i as int, f0[i as int][c]);
                let ghost taken1 = taken;
                let ghost slices1 = slices@;
                match self.pop_list(mem, i) {
                    Ok(buf) => {
                        let ghost b = buf;
                        proof {
                            let o = buf.offset_in_shm as int;
                            assert(self.frees(m1)[i as int][0] == f0[i as int][c]);
                            self.lemma_keeps_trans(m0, m1, mem@, Set::empty(), Set::empty());
                            assert(!self.is_allocated(m0, o)) by {
                                reveal(BufferManager::keeps);
                            }
                            assert(self.is_new(m0, mem@, buf));
                            assert forall|j: int| n <= j < slices1.len() implies self.is_new(
                                m0,
                                mem@,
                                #[trigger] slices1[j],
                            ) && slices1[j].offset_in_shm != o by {
                                self.lemma_is_new_kept(m0, m1, mem@, Set::empty(), slices1[j]);
                                assert(self.is_allocated(m1, slices1[j].offset_in_shm as int));
                            }
                            if self.in_balance(m1) {
                                self.law_counts_follow_taking(m1, mem@, i as int, buf);
                            }
                            taken = taken1.push(t);
                            assert(taken.drop_last() =~= taken1);
                            assert(taken1 + (seq![t] + self.plan(
                                f0,
                                i as int,
                                c + 1,
                                remain - self.lists@[i as int].cap_per_buffer,
                            )) =~= taken + self.plan(
                                f0,
                                i as int,
                                c + 1,
                                remain - self.lists@[i as int].cap_per_buffer,
                            ));
                            assert(f0[i as int].skip(c).skip(1) =~= f0[i as int].skip(c + 1));
                            c = c + 1;
                        }
                        alloc_size = alloc_size + buf.cap as i64;
                        remain = remain - buf.cap as i64;
                        slices.push_back(buf);
                        proof {
                            assert(slices@.take(n) =~= slices1.take(n));
                            assert forall|j: int| 0 <= j < taken.len() implies self.is_taken(
                                taken[j],
                                #[trigger] slices@[n + j],
                            ) by {
                                if j < taken1.len() {
                                    assert(slices@[n + j] == slices1[n + j]);
                                }
                            }
                            assert forall|o: int| #[trigger]
                                self.is_allocated(mem@, o) implies self.is_allocated(m0, o)
                                || is_one_of(slices@, n, o) by {
                                self.lemma_allocated_out(m1, mem@, i as int, b, o);
                                if o == b.offset_in_shm {
                                    assert(slices@[slices1.len() as int] == b);
                                } else if !self.is_allocated(m0, o) {
                                    let j = choose|j: int|
                                        n <= j < slices1.len() && (
                                        #[trigger] slices1[j]).is_from_shm
                                            && slices1[j].offset_in_shm == o;
                                    assert(slices@[j] == slices1[j]);
                                }
                            }
                        }
                    },
                    Err(_) => {
                        more = false;
                    },
                }
            }
        }
        assert(taken + Seq::<(int, int)>::empty() =~= taken);
        alloc_size
    }

    /// The list that the position `o` lies in, counted from list `i` on.
    pub open spec fn list_of(self, o: int, i: int) -> int
        decreases self.lists@.len() - i,
    {
        if i >= self.lists@.len() || self.lists@[i].offset_in_shm <= o < self.lists@[i].end() {
            i
        } else {
            self.list_of(o, i + 1)
        }
    }

    /// The list of a buffer in use is the one that it lies in.
    pub proof fn lemma_list_of(self, m: Seq<u8>, k: int, o: int)
        requires
            self.wf(m),
            self.in_use(m, k, o),
        ensures
            self.list_of(o, 0) == k,
    {
        self.lemma_in_use(m, k, o);
        self.lists@[k].lemma_fits(m);
        self.lists@[k].lemma_node_in(o - self.lists@[k].region());
        self.lemma_list_of_from(k, o, 0);
    }

    proof fn lemma_list_of_from(self, k: int, o: int, i: int)
        requires
            self.lists_apart(),
            0 <= i <= k < self.lists@.len(),
            self.lists@[k].offset_in_shm <= o < self.lists@[k].end(),
        ensures
            self.list_of(o, i) == k,
        decreases k - i,
    {
        if i < k {
            assert(self.lists@[i].end() <= self.lists@[k].offset_in_shm);
            self.lemma_list_of_from(k, o, i + 1);
        }
    }

    /// The buffer at `o` is given back on the way from `a` to `b`.
    pub open spec fn gives_back(self, a: Seq<u8>, b: Seq<u8>, o: int) -> bool {
        let k = self.list_of(o, 0);
        &&& 0 <= k < self.lists@.len()
        &&& self.frees(b) == self.frees(a).update(
            k,
            self.frees(a)[k].push(o - self.lists@[k].region()),
        )
        &&& self.counters(b) == self.counters(a).update(k, list::count_down(self.counters(a)[k]))
        &&& self.keeps(a, b, set![o])
        &&& !self.is_allocated(b, o)
        &&& slice::header_flag(b, o) == 0
    }

    /// Gives a slice back: a buffer of the region to the list that it lies in, a heap buffer to
    /// the heap.
    pub fn recycle_buffer(&self, mem: &mut [u8], slice: BufferSlice)
        requires
            self.wf(old(mem)@),
            self.owns(old(mem)@, slice),
        ensures
            self.wf(final(mem)@),
            final(mem)@.len() == old(mem)@.len(),
            if slice.is_from_shm {
                self.gives_back(
                    old(mem)@,
                    final(mem)@,
                    slice.offset_in_shm as int,
                )
            } else {
                final(mem)@ == old(mem)@
            },
    {
        if slice.is_from_shm {
            let ghost m0 = mem@;
            let ghost o = slice.offset_in_shm as int;
            let ghost k = choose|k: int| self.in_use(m0, k, o);
            proof {
                self.lemma_in_use(m0, k, o);
                self.lemma_list_of(m0, k, o);
            }
            let n: usize = self.lists.len();
            let mut i: usize = 0;
            while i < n
                invariant
                    n == self.lists@.len(),
                    0 <= i <= n,
                    mem@ == m0,
                    m0 == old(mem)@,
                    self.wf(m0),
                    self.in_use(m0, k, o),
                    o == slice.offset_in_shm,
                    slice.is_shm_at(o, slice.cap as int),
                    slice.is_from_shm,
                    slice.cap == self.lists@[k].cap_per_buffer,
                    self.list_of(o, 0) == k,
                    self.list_of(o, i as int) == k,
                decreases n - i,
            {
                if self.lists[i].spans(slice.offset_in_shm) {
                    self.lists[i].push(mem, slice);
                    proof {
                        self.lemma_returned(m0, mem@, k, o);
                        assert(self.counters(mem@)[k] == self.lists@[k].counter(mem@));
                    }
                    return;
                }
                i += 1;
            }
        }
    }

    /// The buffer at `o`, when it is read, has its positions inside its capacity.
    pub open spec fn readable(m: Seq<u8>, o: int) -> bool {
        slice::header_start(m, o) + slice::header_size(m, o) <= slice::header_cap(m, o)
    }

    /// A slice over the buffer whose header stands at `offset`.
    pub fn read_buffer_slice(&self, mem: &[u8], offset: u32) -> (r: Result<
        BufferSlice,
        ManagerError,
    >)
        requires
            mem@.len() <= u32::MAX,
            offset + BUFFER_HEADER_SIZE < mem@.len() && offset + BUFFER_HEADER_SIZE
                + slice::header_cap(mem@, offset as int) <= mem@.len() ==> slice::header_start(
                mem@,
                offset as int,
            ) + slice::header_size(mem@, offset as int) <= u32::MAX,
        ensures
            match r {
                Err(ManagerError::UnexpectedOffset { offset: o, mem_len }) => {
                    &&& offset + BUFFER_HEADER_SIZE >= mem@.len()
                    &&& o == offset
                    &&& mem_len == mem@.len()
                },
                Err(ManagerError::UnexpectedEnd { end, offset: o, mem_len }) => {
                    &&& offset + BUFFER_HEADER_SIZE < mem@.len()
                    &&& end == offset + BUFFER_HEADER_SIZE + slice::header_cap(mem@, offset as int)
                    &&& end > mem@.len()
                    &&& o == offset
                    &&& mem_len == mem@.len()
                },
                Err(_) => false,
                Ok(s) => {
                    &&& offset + BUFFER_HEADER_SIZE < mem@.len()
                    &&& offset + BUFFER_HEADER_SIZE + slice::header_cap(mem@, offset as int)
                        <= mem@.len()
                    &&& s.is_shm_at(offset as int, slice::header_cap(mem@, offset as int) as int)
                    &&& s.start == slice::header_start(mem@, offset as int)
                    &&& s.read_index == 0
                    &&& s.write_index == slice::header_start(mem@, offset as int)
                        + slice::header_size(mem@, offset as int)
                    &&& s == Self::slice_at(mem@, offset as int)
                    &&& Self::readable(mem@, offset as int) ==> s.wf(mem@)
                },
            },
    {
        let mem_len: usize = mem.len();
        if offset as u64 + BUFFER_HEADER_SIZE as u64 >= mem_len as u64 {
            return Err(ManagerError::UnexpectedOffset { offset, mem_len });
        }
        let header = BufferHeader(offset as usize);
        let buf_cap: u32 = header.cap(mem);
        let end: u64 = offset as u64 + BUFFER_HEADER_SIZE as u64 + buf_cap as u64;
        if end > mem_len as u64 {
            return Err(ManagerError::UnexpectedEnd { end, offset, mem_len });
        }
        Ok(
            BufferSlice::new(
                mem,
                Some(header),
                SliceData::Shm(offset as usize + BUFFER_HEADER_SIZE as usize),
                buf_cap,
                offset,
                true,
            ),
        )
    }

    /// The header at `o` names a next one inside the region.
    pub open spec fn names_next(m: Seq<u8>, o: int) -> bool {
        &&& slice::flag_has_next(slice::header_flag(m, o))
        &&& slice::header_next(m, o) + BUFFER_HEADER_SIZE < m.len()
    }

    /// `q` are buffers in use, each of which names the next one in its header. The last one names
    /// none, or one that would lie outside of the region.
    pub open spec fn is_chain(self, m: Seq<u8>, q: Seq<int>) -> bool {
        &&& q.len() >= 1
        &&& q.no_duplicates()
        &&& forall|i: int| 0 <= i < q.len() ==> self.is_allocated(m, #[trigger] q[i])
        &&& forall|i: int| 0 <= i < q.len() ==> Self::readable(m, #[trigger] q[i])
        &&& forall|i: int, j: int|
            0 <= i < q.len() && j == i + 1 && j < q.len() ==> {
                &&& slice::header_next(m, #[trigger] q[i]) == #[trigger] q[j]
                &&& Self::names_next(m, q[i])
            }
        &&& !Self::names_next(m, q.last())
    }

    /// The free buffers after those of `q` were put back one by one.
    pub open spec fn put_back(self, frees: Seq<Seq<int>>, q: Seq<int>) -> Seq<Seq<int>>
        decreases q.len(),
    {
        if q.len() == 0 {
            frees
        } else {
            let f = self.put_back(frees, q.drop_last());
            let k = self.list_of(q.last(), 0);
            f.update(k, f[k].push(q.last() - self.lists@[k].region()))
        }
    }

    /// The counts of the lists after the buffers of `q` were put back one by one.
    pub open spec fn counted_back(self, counts: Seq<u32>, q: Seq<int>) -> Seq<u32>
        decreases q.len(),
    {
        if q.len() == 0 {
            counts
        } else {
            let c = self.counted_back(counts, q.drop_last());
            let k = self.list_of(q.last(), 0);
            c.update(k, list::count_down(c[k]))
        }
    }

    /// The chain that starts at `o`.
    pub open spec fn chain_from(self, m: Seq<u8>, o: int) -> Seq<int> {
        choose|q: Seq<int>| self.is_chain(m, q) && q[0] == o
    }

    /// There is one chain from a buffer only.
    pub proof fn lemma_chain_unique(self, m: Seq<u8>, q: Seq<int>)
        requires
            self.is_chain(m, q),
        ensures
            self.chain_from(m, q[0]) == q,
    {
        let p = self.chain_from(m, q[0]);
        assert(self.is_chain(m, p) && p[0] == q[0]);
        let n = if p.len() <= q.len() {
            p.len() as int
        } else {
            q.len() as int
        };
        self.lemma_chain_prefix(m, p, q, n);
        if p.len() < q.len() {
            assert(p[n - 1] == q[n - 1]);
            assert(slice::header_next(m, q[n - 1]) == q[n]);
            assert(p.last() == p[n - 1]);
        } else if q.len() < p.len() {
            assert(p[n - 1] == q[n - 1]);
            assert(slice::header_next(m, p[n - 1]) == p[n]);
            assert(q.last() == q[n - 1]);
        }
        assert(p =~= q);
    }

    proof fn lemma_chain_prefix(self, m: Seq<u8>, p: Seq<int>, q: Seq<int>, n: int)
        requires
            self.is_chain(m, p),
            self.is_chain(m, q),
            p[0] == q[0],
            0 <= n <= p.len(),
            n <= q.len(),
        ensures
            forall|i: int| 0 <= i < n ==> p[i] == q[i],
        decreases n,
    {
        if n > 1 {
            self.lemma_chain_prefix(m, p, q, n - 1);
            assert(p[n - 2] == q[n - 2]);
            assert(slice::header_next(m, p[n - 2]) == p[n - 1]);
            assert(slice::header_next(m, q[n - 2]) == q[n - 1]);
        }
    }

    /// The slice that reading the buffer at `o` gives.
    pub open spec fn slice_at(m: Seq<u8>, o: int) -> BufferSlice {
        BufferSlice {
            buffer_header: Some(BufferHeader(o as usize)),
            data: SliceData::Shm((o + BUFFER_HEADER_SIZE) as usize),
            cap: slice::header_cap(m, o),
            start: slice::header_start(m, o),
            offset_in_shm: o as u32,
            read_index: 0,
            write_index: (slice::header_start(m, o) + slice::header_size(m, o)) as usize,
            is_from_shm: true,
        }
    }

    /// The slices that reading the buffers of a chain gives.
    pub open spec fn slices_at(m: Seq<u8>, q: Seq<int>) -> Seq<BufferSlice> {
        Seq::new(q.len(), |i: int| Self::slice_at(m, q[i]))
    }

    /// A chain of which no buffer changes stays one.
    pub proof fn lemma_chain_kept(self, a: Seq<u8>, b: Seq<u8>, own: Set<int>, q: Seq<int>)
        requires
            self.wf(a),
            self.keeps(a, b, own),
            self.is_chain(a, q),
            forall|i: int| 0 <= i < q.len() ==> !own.contains(#[trigger] q[i]),
        ensures
            self.is_chain(b, q),
            forall|i: int|
                0 <= i < q.len() ==> slice::header_flag(b, #[trigger] q[i]) == slice::header_flag(
                    a,
                    q[i],
                ),
    {
        reveal(BufferManager::keeps);
        assert forall|i: int| 0 <= i < q.len() implies {
            &&& self.is_allocated(b, #[trigger] q[i])
            &&& slice::header_cap(b, q[i]) == slice::header_cap(a, q[i])
            &&& slice::header_size(b, q[i]) == slice::header_size(a, q[i])
            &&& slice::header_start(b, q[i]) == slice::header_start(a, q[i])
            &&& slice::header_next(b, q[i]) == slice::header_next(a, q[i])
            &&& slice::header_flag(b, q[i]) == slice::header_flag(a, q[i])
        } by {
            let o = q[i];
            assert(self.is_allocated(a, o));
            mem::lemma_u32_at_same(a, b, o);
            mem::lemma_u32_at_same(a, b, o + 4);
            mem::lemma_u32_at_same(a, b, o + 8);
            mem::lemma_u32_at_same(a, b, o + 12);
            assert(a[o + 16] == b[o + 16]);
        }
        assert forall|i: int| 0 <= i < q.len() implies Self::readable(b, #[trigger] q[i]) by {
            assert(Self::readable(a, q[i]));
        }
        assert forall|i: int, j: int| 0 <= i < q.len() && j == i + 1 && j < q.len() implies {
            &&& slice::header_next(b, #[trigger] q[i]) == #[trigger] q[j]
            &&& Self::names_next(b, q[i])
        } by {
            assert(slice::header_next(a, q[i]) == q[j]);
        }
        assert(q[q.len() - 1] == q.last());
    }

    /// Gives back a slice and, if it is a buffer of the region, all that follow it in its chain, up
    /// to a link that leaves the region.
    pub fn recycle_buffers(&self, mem: &mut [u8], slice: BufferSlice)
        requires
            self.wf(old(mem)@),
            self.owns(old(mem)@, slice),
            slice.is_from_shm ==> exists|q: Seq<int>| #[trigger]
                self.is_chain(old(mem)@, q) && q[0] == slice.offset_in_shm,
        ensures
            self.wf(final(mem)@),
            final(mem)@.len() == old(mem)@.len(),
            !slice.is_from_shm ==> final(mem)@ == old(mem)@,
            slice.is_from_shm ==> {
                let q = self.chain_from(old(mem)@, slice.offset_in_shm as int);
                &&& self.frees(final(mem)@) == self.put_back(
                    self.frees(old(mem)@),
                    q,
                )
                &&& self.counters(final(mem)@) == self.counted_back(
                    self.counters(old(mem)@),
                    q,
                )
                &&& self.keeps(old(mem)@, final(mem)@, q.to_set())
                &&& forall|i: int|
                    0 <= i < q.len() ==> !self.is_allocated(final(mem)@, #[trigger] q[i])
            },
            self.in_balance(old(mem)@) ==> self.in_balance(final(mem)@),
            forall|o: int| #[trigger]
                self.is_allocated(final(mem)@, o) ==> self.is_allocated(old(mem)@, o),
    {
        if slice.is_from_shm {
            let ghost m0 = mem@;
            let ghost q = self.chain_from(m0, slice.offset_in_shm as int);
            let ghost own = q.to_set();
            let ghost mut k: int = 0;
            let mut slice = slice;
            assert(self.keeps(m0, mem@, own)) by {
                reveal(BufferManager::keeps);
            }
            assert(q.take(0) =~= Seq::<int>::empty());
            assert(q.skip(0) =~= q);
            loop
                invariant_except_break
                    k < q.len(),
                    self.is_chain(mem@, q.skip(k)),
                    slice.is_from_shm,
                    slice.offset_in_shm == q[k],
                    self.owns(mem@, slice),
                invariant
                    self.wf(mem@),
                    self.wf(m0),
                    mem@.len() == m0.len(),
                    self.is_chain(m0, q),
                    own == q.to_set(),
                    0 <= k <= q.len(),
                    self.keeps(m0, mem@, own),
                    self.frees(mem@) == self.put_back(self.frees(m0), q.take(k)),
                    self.counters(mem@) == self.counted_back(self.counters(m0), q.take(k)),
                    self.in_balance(m0) ==> self.in_balance(mem@),
                    forall|i: int|
                        0 <= i < k ==> !self.is_allocated(mem@, #[trigger] q[i]),
                    forall|o: int| #[trigger]
                        self.is_allocated(mem@, o) ==> self.is_allocated(m0, o),
                ensures
                    k == q.len(),
                decreases q.len() - k,
            {
                let ghost m1 = mem@;
                let ghost rest = q.skip(k);
                assert(rest[0] == q[k]);
                assert(self.is_allocated(m1, rest[0]));
                let ghost li = choose|i: int| self.in_use(m1, i, q[k]);
                proof {
                    self.lemma_in_use(m1, li, q[k]);
                    self.lists@[li].lemma_fits(m1);
                    if rest.len() == 1 {
                        assert(rest.last() == rest[0]);
                    } else {
                        assert(slice::header_next(m1, rest[0]) == rest[1]);
                    }
                }
                let header = BufferHeader(slice.offset_in_shm as usize);
                let has_next: bool = header.has_next(mem);
                let next_slice_offset: u32 = header.next_buffer_offset(mem);
                self.recycle_buffer(mem, slice);
                proof {
                    self.lemma_give_back_step(m0, m1, mem@, q, k);
                    assert forall|o: int| #[trigger]
                        self.is_allocated(mem@, o) implies self.is_allocated(m0, o) by {
                        self.lemma_allocated_back(m1, mem@, q[k], o);
                    }
                    k = k + 1;
                    if k < q.len() {
                        assert(q.skip(k)[0] == q[k]);
                        assert(self.is_allocated(mem@, q.skip(k)[0]));
                        assert(Self::readable(mem@, q.skip(k)[0]));
                        let i = choose|i: int| self.in_use(mem@, i, q[k]);
                        self.lemma_in_use(mem@, i, q[k]);
                    }
                }
                if !has_next {
                    break;
                }
                match self.read_buffer_slice(mem, next_slice_offset) {
                    Ok(s) => {
                        slice = s;
                    },
                    Err(_) => {
                        break;
                    },
                }
            }
            assert(q.take(k) =~= q);
        }
    }

    /// One step of giving a chain back.
    proof fn lemma_give_back_step(self, m0: Seq<u8>, m1: Seq<u8>, m2: Seq<u8>, q: Seq<int>, k: int)
        requires
            self.wf(m0),
            self.wf(m1),
            self.wf(m2),
            m1.len() == m2.len(),
            self.is_chain(m0, q),
            0 <= k < q.len(),
            self.is_chain(m1, q.skip(k)),
            self.keeps(m0, m1, q.to_set()),
            self.frees(m1) == self.put_back(self.frees(m0), q.take(k)),
            self.counters(m1) == self.counted_back(self.counters(m0), q.take(k)),
            forall|i: int| 0 <= i < k ==> !self.is_allocated(m1, #[trigger] q[i]),
            self.gives_back(m1, m2, q[k]),
        ensures
            self.keeps(m0, m2, q.to_set()),
            self.frees(m2) == self.put_back(self.frees(m0), q.take(k + 1)),
            self.counters(m2) == self.counted_back(self.counters(m0), q.take(k + 1)),
            self.in_balance(m1) ==> self.in_balance(m2),
            forall|i: int| 0 <= i < k + 1 ==> !self.is_allocated(m2, #[trigger] q[i]),
            k + 1 < q.len() ==> self.is_chain(m2, q.skip(k + 1)),
    {
        let own = q.to_set();
        assert(own.contains(q[k])) by {
            assert(q.contains(q[k]));
        }
        self.lemma_keeps_trans(m0, m1, m2, own, set![q[k]]);
        if self.in_balance(m1) {
            self.law_counts_follow_giving_back(m1, m2, q[k]);
        }
        assert(q.take(k + 1).drop_last() =~= q.take(k));
        assert(q.take(k + 1).last() == q[k]);
        let rest = q.skip(k);
        let tail = q.skip(k + 1);
        if tail.len() >= 1 {
            assert(self.is_chain(m1, tail)) by {
                assert forall|i: int| 0 <= i < tail.len() implies self.is_allocated(
                    m1,
                    #[trigger] tail[i],
                ) && Self::readable(m1, tail[i]) by {
                    assert(tail[i] == rest[i + 1]);
                }
                assert forall|i: int, j: int|
                    0 <= i < tail.len() && j == i + 1 && j < tail.len() implies {
                    &&& slice::header_next(m1, #[trigger] tail[i]) == #[trigger] tail[j]
                    &&& Self::names_next(m1, tail[i])
                } by {
                    assert(tail[i] == rest[i + 1] && tail[j] == rest[j + 1]);
                }
                assert(tail.last() == rest.last());
            }
            assert forall|i: int| 0 <= i < tail.len() implies !set![q[k]].contains(
                #[trigger] tail[i],
            ) by {
                assert(tail[i] == q[k + 1 + i]);
            }
            self.lemma_chain_kept(m1, m2, set![q[k]], tail);
        }
        assert forall|i: int| 0 <= i < k + 1 implies !self.is_allocated(m2, #[trigger] q[i]) by {
            if i < k && self.is_allocated(m2, q[i]) {
                self.lemma_allocated_back(m1, m2, q[k], q[i]);
            }
        }
    }

    /// Giving a buffer back puts none in use.
    pub proof fn lemma_allocated_back(self, a: Seq<u8>, b: Seq<u8>, o: int, p: int)
        requires
            self.gives_back(a, b, o),
            self.is_allocated(b, p),
        ensures
            self.is_allocated(a, p),
    {
        let i = choose|i: int| self.in_use(b, i, p);
        let x = p - self.lists@[i].region();
        assert(self.frees(a)[i] == self.lists@[i].free(a));
        assert(self.frees(b)[i] == self.lists@[i].free(b));
        if self.lists@[i].free(a).contains(x) {
            let j = choose|j: int|
                0 <= j < self.lists@[i].free(a).len() && self.lists@[i].free(a)[j] == x;
            assert(self.lists@[i].free(b)[j] == x);
        }
        assert(self.in_use(a, i, p));
    }

    /// The bytes that the free buffers of the first `n` lists hold.
    pub open spec fn free_bytes(self, m: Seq<u8>, n: int) -> int
        decreases n,
    {
        if n <= 0 {
            0
        } else {
            self.free_bytes(m, n - 1) + self.frees(m)[n - 1].len() * self.lists@[n
                - 1].cap_per_buffer
        }
    }

    /// The number of free buffers of the first `n` lists.
    pub open spec fn free_count(self, m: Seq<u8>, n: int) -> int
        decreases n,
    {
        if n <= 0 {
            0
        } else {
            self.free_count(m, n - 1) + self.frees(m)[n - 1].len()
        }
    }

    /// How many bytes the free buffers hold.
    pub fn remain_size(&self, mem: &[u8]) -> (r: u32)
        requires
            self.wf(mem@),
        ensures
            r == self.free_bytes(mem@, self.lists@.len() as int),
    {
        let n: usize = self.lists.len();
        let mut result: u32 = 0;
        let mut i: usize = 0;
        while i < n
            invariant
                n == self.lists@.len(),
                0 <= i <= n,
                self.wf(mem@),
                result == self.free_bytes(mem@, i as int),
                i > 0 ==> result <= self.lists@[i - 1].end(),
                i == 0 ==> result == 0,
            decreases n - i,
        {
            let l = &self.lists[i];
            proof {
                l.lemma_fits(mem@);
                l.lemma_cap_bound(mem@);
                let f = self.frees(mem@)[i as int].len() as int;
                assert(0 <= f * l.cap_per_buffer <= l.cap * l.stride()) by (nonlinear_arith)
                    requires
                        0 <= f <= l.cap,
                        0 <= l.cap_per_buffer <= l.stride(),
                ;
                if i > 0 {
                    assert(self.lists@[i - 1].end() <= self.lists@[i as int].offset_in_shm);
                }
            }
            let size: u32 = mem::get_u32(mem, l.offset_in_shm as usize);
            let remain: u64 = size as u64 * l.cap_per_buffer as u64;
            result = result + remain as u32;
            i += 1;
        }
        result
    }

    /// How many buffers are free.
    pub fn slice_size(&self, mem: &[u8]) -> (r: isize)
        requires
            self.wf(mem@),
        ensures
            r == self.free_count(mem@, self.lists@.len() as int),
    {
        let n: usize = self.lists.len();
        let mut size: isize = 0;
        let mut i: usize = 0;
        while i < n
            invariant
                n == self.lists@.len(),
                0 <= i <= n,
                self.wf(mem@),
                size == self.free_count(mem@, i as int),
                i > 0 ==> size * 21 <= self.lists@[i - 1].end(),
                i == 0 ==> size == 0,
            decreases n - i,
        {
            let l = &self.lists[i];
            proof {
                l.lemma_fits(mem@);
                l.lemma_cap_bound(mem@);
                let f = self.frees(mem@)[i as int].len() as int;
                assert(0 <= f * 21 <= l.cap * l.stride()) by (nonlinear_arith)
                    requires
                        0 <= f <= l.cap,
                        21 <= l.stride(),
                ;
                if i > 0 {
                    assert(self.lists@[i - 1].end() <= self.lists@[i as int].offset_in_shm);
                }
            }
            size = size + mem::get_u32(mem, l.offset_in_shm as usize) as isize;
            i += 1;
        }
        size
    }

    /// Every buffer is back in its list, and the counts say so.
    pub open spec fn all_returned(self, m: Seq<u8>) -> bool {
        forall|i: int|
            0 <= i < self.lists@.len() ==> {
                &&& (#[trigger] self.lists@[i]).free(m).len() == self.lists@[i].cap
                &&& self.lists@[i].counter(m) == 0
            }
    }

    /// Whether the lists are well-formed and apart, as every other function here asks. It is so of
    /// a region that was set up here; of one that a peer set up it is to be tested.
    pub fn is_in_order(&self, mem: &[u8]) -> (r: bool)
        ensures
            r == self.wf(mem@),
    {
        let n: usize = self.lists.len();
        if n == 0 || self.min_slice_size != self.lists[0].cap_per_buffer || self.max_slice_size
            != self.lists[n - 1].cap_per_buffer {
            return false;
        }
        let mut i: usize = 0;
        while i < n
            invariant
                n == self.lists@.len(),
                0 <= i <= n,
                forall|k: int| 0 <= k < i ==> (#[trigger] self.lists@[k]).wf(mem@),
                forall|k: int, l: int|
                    0 <= k < l < i ==> (#[trigger] self.lists@[k]).end() <= (
                    #[trigger] self.lists@[l]).offset_in_shm,
            decreases n - i,
        {
            if !self.lists[i].is_in_order(mem) {
                assert(!self.lists@[i as int].wf(mem@));
                return false;
            }
            let mut j: usize = 0;
            while j < i
                invariant
                    n == self.lists@.len(),
                    0 <= j <= i < n,
                    forall|k: int|
                        0 <= k < j ==> (#[trigger] self.lists@[k]).end()
                            <= self.lists@[i as int].offset_in_shm,
                decreases i - j,
            {
                let l = self.lists[j];
                let end: u128 = l.offset_in_shm as u128 + list::wide_list_mem_size(
                    l.cap,
                    l.cap_per_buffer,
                );
                if end > self.lists[i].offset_in_shm as u128 {
                    assert(!self.lists_apart()) by {
                        let a = self.lists@[j as int];
                        let b = self.lists@[i as int];
                        assert(a.end() > b.offset_in_shm);
                    }
                    return false;
                }
                j = j + 1;
            }
            i = i + 1;
        }
        true
    }

    /// Whether every buffer is back in its list and the counts say so.
    pub fn check_buffer_returned(&self, mem: &[u8]) -> (r: bool)
        requires
            self.wf(mem@),
        ensures
            r == self.all_returned(mem@),
    {
        let n: usize = self.lists.len();
        let mut i: usize = 0;
        while i < n
            invariant
                n == self.lists@.len(),
                0 <= i <= n,
                self.wf(mem@),
                forall|k: int|
                    0 <= k < i ==> {
                        &&& (#[trigger] self.lists@[k]).free(mem@).len() == self.lists@[k].cap
                        &&& self.lists@[k].counter(mem@) == 0
                    },
            decreases n - i,
        {
            let l = &self.lists[i];
            proof {
                l.lemma_fits(mem@);
            }
            let off: usize = l.offset_in_shm as usize;
            if mem::get_u32(mem, off) != mem::get_u32(mem, off + 4) {
                assert(!self.all_returned(mem@)) by {
                    assert(self.lists@[i as int].wf(mem@));
                }
                return false;
            }
            if mem::get_u32(mem, off + l.counter_offset as usize) != 0 {
                assert(!self.all_returned(mem@)) by {
                    assert(self.lists@[i as int].wf(mem@));
                }
                return false;
            }
            i += 1;
        }
        true
    }

    /// Adds `c` to the number of users; tells whether none is left.
    pub fn add_ref_count(&mut self, c: i32) -> (r: bool)
        requires
            i32::MIN <= old(self).ref_count + c <= i32::MAX,
        ensures
            final(self).ref_count == old(self).ref_count + c,
            r == (final(self).ref_count <= 0),
            *final(self) == (BufferManager { ref_count: final(self).ref_count, ..*old(self) }),
    {
        self.ref_count = self.ref_count + c;
        self.ref_count <= 0
    }

    /// Sum of the percentages of the first `n` pairs.
    pub open spec fn percent_sum(pairs: Seq<SizePercentPair>, n: int) -> int
        decreases n,
    {
        if n <= 0 {
            0
        } else {
            Self::percent_sum(pairs, n - 1) + pairs[n - 1].percent
        }
    }

    /// How many buffers a pair gets out of `region_cap` bytes.
    pub open spec fn pair_count(region_cap: int, pair: SizePercentPair) -> int {
        (region_cap * pair.percent / 100) / (pair.size + BUFFER_HEADER_SIZE)
    }

    /// The bytes that are left for buffers after the headers of the manager and the lists.
    pub open spec fn region_cap(mem_len: int, offset: int, list_num: int) -> int {
        mem_len - offset - BUFFER_LIST_HEADER_SIZE * list_num - BUFFER_MANAGER_HEADER_SIZE
    }

    /// Where the list of pair `n` starts.
    pub open spec fn list_start(
        pairs: Seq<SizePercentPair>,
        region_cap: int,
        offset: int,
        n: int,
    ) -> int
        decreases n,
    {
        if n <= 0 {
            offset + BUFFER_MANAGER_HEADER_SIZE
        } else {
            Self::list_start(pairs, region_cap, offset, n - 1) + list::list_mem_size(
                Self::pair_count(region_cap, pairs[n - 1]),
                pairs[n - 1].size as int,
            )
        }
    }

    /// The error that pair `n` gives, where those before it gave none.
    pub open spec fn pair_error(
        pairs: Seq<SizePercentPair>,
        region_cap: int,
        n: int,
    ) -> Option<ManagerError> {
        if Self::percent_sum(pairs, n + 1) > 100 {
            Some(ManagerError::PercentSum)
        } else if Self::pair_count(region_cap, pairs[n]) == 0 || pairs[n].size == 0 {
            Some(
                ManagerError::List(
                    ListError::Zero {
                        buffer_num: Self::pair_count(region_cap, pairs[n]) as u32,
                        cap_per_buffer: pairs[n].size,
                    },
                ),
            )
        } else {
            None
        }
    }

    /// The first `n` lists are those of the first `n` pairs.
    pub open spec fn lists_of_pairs(
        lists: Seq<BufferList>,
        pairs: Seq<SizePercentPair>,
        region_cap: int,
        offset: int,
    ) -> bool {
        forall|i: int|
            0 <= i < lists.len() ==> {
                &&& (#[trigger] lists[i]).offset_in_shm == Self::list_start(
                    pairs,
                    region_cap,
                    offset,
                    i,
                )
                &&& lists[i].cap == Self::pair_count(region_cap, pairs[i])
                &&& lists[i].cap_per_buffer == pairs[i].size
                &&& lists[i].counter_offset == 20
            }
    }

    /// A pair's buffers, with their headers, stay inside the pair's share.
    proof fn lemma_pair_share(region_cap: int, pair: SizePercentPair)
        requires
            0 <= region_cap <= u32::MAX,
            pair.percent <= 100,
        ensures
            0 <= region_cap * pair.percent / 100 <= region_cap,
            0 <= Self::pair_count(region_cap, pair) <= u32::MAX,
            list::list_mem_size(Self::pair_count(region_cap, pair), pair.size as int)
                <= BUFFER_LIST_HEADER_SIZE + region_cap * pair.percent / 100,
            list::list_mem_size(Self::pair_count(region_cap, pair), pair.size as int)
                >= BUFFER_LIST_HEADER_SIZE,
    {
        let d = pair.size + BUFFER_HEADER_SIZE;
        let x = region_cap * pair.percent / 100;
        let n = x / d;
        assert(0 <= region_cap * pair.percent <= region_cap * 100) by (nonlinear_arith)
            requires
                0 <= region_cap,
                0 <= pair.percent <= 100,
        ;
        lemma_fundamental_div_mod(x, d);
        assert(n * d == d * n) by (nonlinear_arith);
        assert(0 <= n && n <= x) by (nonlinear_arith)
            requires
                0 <= x,
                d >= 1,
                d * n + x % d == x,
                0 <= x % d < d,
        ;
        assert(0 <= n * d) by (nonlinear_arith)
            requires
                0 <= n,
                0 <= d,
        ;
    }

    /// Shares of parts do not add up to more than the share of the sum.
    proof fn lemma_shares_add(region_cap: int, a: int, b: int)
        requires
            0 <= region_cap,
        ensures
            region_cap * a / 100 + region_cap * b / 100 <= region_cap * (a + b) / 100,
    {
        assert(region_cap * (a + b) == region_cap * a + region_cap * b) by (nonlinear_arith);
    }

    /// On the way from `m` to `n` nothing but the header at `offset` and what follows it up to `end`
    /// was written to, and of the header nothing but the number of lists and the used length.
    pub open spec fn set_up_within(m: Seq<u8>, n: Seq<u8>, offset: int, end: int) -> bool {
        &&& mem::same_range(m, n, 0, offset)
        &&& mem::same_range(m, n, offset + 2, offset + BM_CAP_OFFSET)
        &&& mem::same_range(m, n, end, m.len() as int)
    }

    /// What comes of setting up the free lists at `offset` in the region `m`, which is `n` after.
    /// Where a list cannot be set up, those in front of it have been.
    pub open spec fn created(
        r: Result<Self, ManagerError>,
        pairs: Seq<SizePercentPair>,
        path: Seq<char>,
        offset: int,
        m: Seq<u8>,
        n: Seq<u8>,
    ) -> bool {
        let cap = Self::region_cap(m.len() as int, offset, pairs.len() as int);
        match r {
            Err(ManagerError::TooSmall { at_least, mem_len }) => {
                &&& m.len() <= offset
                &&& at_least == offset + 1
                &&& mem_len == m.len()
                &&& n == m
            },
            Err(e) => {
                &&& offset < m.len()
                &&& exists|i: int|
                    0 <= i < pairs.len() && #[trigger] Self::pair_error(pairs, cap, i) == Some(e)
                        && Self::set_up_within(
                        m,
                        n,
                        offset,
                        Self::list_start(pairs, cap, offset, i),
                    ) && forall|k: int|
                        0 <= k < i ==> (#[trigger] Self::pair_error(pairs, cap, k)) is None
            },
            Ok(b) => {
                &&& offset < m.len()
                &&& forall|k: int|
                    0 <= k < pairs.len() ==> (#[trigger] Self::pair_error(pairs, cap, k)) is None
                &&& b.lists@.len() == pairs.len()
                &&& Self::lists_of_pairs(b.lists@, pairs, cap, offset)
                &&& b.min_slice_size == pairs[0].size
                &&& b.max_slice_size == pairs.last().size
                &&& b.path@ == path
                &&& b.ref_count == 1
                &&& forall|i: int|
                    0 <= i < b.lists@.len() ==> {
                        &&& (#[trigger] b.lists@[i]).wf(n)
                        &&& b.lists@[i].free(n) == b.lists@[i].all_nodes()
                        &&& b.lists@[i].none_marked(n)
                        &&& mem::same_range(
                            m,
                            n,
                            b.lists@[i].offset_in_shm + 24,
                            b.lists@[i].region(),
                        )
                    }
                &&& b.all_returned(n)
                &&& b.laid_out(n, offset)
                &&& mem::u16_at(n, offset) == pairs.len()
                &&& mem::u32_at(n, offset + BM_CAP_OFFSET) == Self::list_start(
                    pairs,
                    cap,
                    offset,
                    pairs.len() as int,
                ) - BUFFER_MANAGER_HEADER_SIZE
                &&& Self::set_up_within(m, n, offset, b.lists@.last().end())
            },
        }
    }

    /// Sets up the free lists of a region, one for each pair.
    pub fn create(
        list_size_percent: &[SizePercentPair],
        path: &str,
        mem: &mut [u8],
        offset: u32,
    ) -> (r: Result<Self, ManagerError>)
        requires
            old(mem)@.len() <= u32::MAX,
            offset < old(mem)@.len() ==> 1 <= list_size_percent@.len() <= u16::MAX
                && Self::region_cap(
                old(mem)@.len() as int,
                offset as int,
                list_size_percent@.len() as int,
            ) >= 0,
        ensures
            final(mem)@.len() == old(mem)@.len(),
            Self::created(
                r,
                list_size_percent@,
                path@,
                offset as int,
                old(mem)@,
                final(mem)@,
            ),
            r matches Ok(b) ==> b.mem_map_type == MemMapType::MemMapTypeDevShmFile && b.memfd == 0,
    {
        broadcast use mem::group_mem;

        let mem_len: usize = mem.len();
        if mem_len <= offset as usize {
            return Err(ManagerError::TooSmall { at_least: offset as u64 + 1, mem_len });
        }
        let ghost pairs = list_size_percent@;
        let n: usize = list_size_percent.len();
        let ghost cap = Self::region_cap(mem_len as int, offset as int, n as int);
        let buffer_region_cap: u64 = mem_len as u64 - offset as u64 - BUFFER_LIST_HEADER_SIZE as u64
            * n as u64 - BUFFER_MANAGER_HEADER_SIZE as u64;
        mem::set_u16(mem, offset as usize, n as u16);
        assert(mem::u16_at(mem@, offset as int) == n);
        let mut had_used_offset: u32 = BUFFER_MANAGER_HEADER_SIZE + offset;
        let mut lists: Vec<BufferList> = Vec::new();
        let mut sum_percent: u64 = 0;
        let mut i: usize = 0;
        while i < n
            invariant
                n == pairs.len(),
                pairs == list_size_percent@,
                0 <= i <= n <= u16::MAX,
                mem_len == mem@.len(),
                mem_len == old(mem)@.len(),
                mem_len <= u32::MAX,
                offset < mem_len,
                cap == Self::region_cap(mem_len as int, offset as int, n as int),
                0 <= cap,
                buffer_region_cap == cap,
                sum_percent == Self::percent_sum(pairs, i as int),
                sum_percent <= 100,
                had_used_offset == Self::list_start(pairs, cap, offset as int, i as int),
                offset + BUFFER_MANAGER_HEADER_SIZE <= had_used_offset,
                had_used_offset <= offset + BUFFER_MANAGER_HEADER_SIZE + BUFFER_LIST_HEADER_SIZE * i
                    + cap * sum_percent / 100,
                forall|k: int|
                    0 <= k < i ==> (#[trigger] Self::pair_error(pairs, cap, k)) is None,
                lists@.len() == i,
                Self::lists_of_pairs(lists@, pairs, cap, offset as int),
                forall|k: int|
                    0 <= k < i ==> {
                        &&& (#[trigger] lists@[k]).wf(mem@)
                        &&& lists@[k].free(mem@) == lists@[k].all_nodes()
                        &&& lists@[k].counter(mem@) == 0
                        &&& lists@[k].none_marked(mem@)
                        &&& lists@[k].end() <= had_used_offset
                        &&& offset + BUFFER_MANAGER_HEADER_SIZE <= lists@[k].offset_in_shm
                        &&& mem::same_range(
                            old(mem)@,
                            mem@,
                            lists@[k].offset_in_shm + 24,
                            lists@[k].region(),
                        )
                    },
                forall|k: int, l: int|
                    0 <= k < l < i ==> (#[trigger] lists@[k]).end() <= (
                    #[trigger] lists@[l]).offset_in_shm,
                mem::u16_at(mem@, offset as int) == n,
                Self::set_up_within(old(mem)@, mem@, offset as int, had_used_offset as int),
                i > 0 ==> lists@[i - 1].end() == had_used_offset,
            decreases n - i,
        {
            let pair = list_size_percent[i];
            assert(pair == pairs[i as int]);
            sum_percent = sum_percent + pair.percent as u64;
            assert(sum_percent == Self::percent_sum(pairs, i + 1));
            if sum_percent > 100 {
                assert(Self::pair_error(pairs, cap, i as int) == Some(ManagerError::PercentSum));
                return Err(ManagerError::PercentSum);
            }
            proof {
                Self::lemma_pair_share(cap, pair);
                Self::lemma_shares_add(cap, sum_percent - pair.percent, pair.percent as int);
                assert(cap * sum_percent / 100 <= cap) by (nonlinear_arith)
                    requires
                        0 <= cap,
                        0 <= sum_percent <= 100,
                ;
                assert(0 <= buffer_region_cap * pair.percent <= u64::MAX) by (nonlinear_arith)
                    requires
                        0 <= buffer_region_cap <= u32::MAX,
                        0 <= pair.percent <= 100,
                ;
            }
            let share: u64 = buffer_region_cap * pair.percent as u64 / 100;
            let buffer_num: u32 = (share / (pair.size as u64 + BUFFER_HEADER_SIZE as u64)) as u32;
            assert(buffer_num == Self::pair_count(cap, pair));
            let ghost before = mem@;
            match BufferList::create(buffer_num, pair.size, mem, had_used_offset) {
                Ok(l) => {
                    proof {
                        let ls = lists@;
                        assert forall|k: int| 0 <= k < i implies {
                            &&& (#[trigger] ls[k]).wf(mem@)
                            &&& ls[k].free(mem@) == ls[k].all_nodes()
                            &&& ls[k].counter(mem@) == 0
                            &&& ls[k].none_marked(mem@)
                            &&& ls[k].end() <= had_used_offset
                            &&& mem::same_range(
                                old(mem)@,
                                mem@,
                                ls[k].offset_in_shm + 24,
                                ls[k].region(),
                            )
                        } by {
                            ls[k].lemma_fits(before);
                            Self::lemma_list_same(ls[k], before, mem@);
                        }
                        assert(mem@[offset as int] == before[offset as int]);
                        assert(mem@[offset + 1] == before[offset + 1]);
                        assert(Self::pair_error(pairs, cap, i as int) is None);
                    }
                    assert(pair.size + BUFFER_HEADER_SIZE <= buffer_num * (pair.size
                        + BUFFER_HEADER_SIZE)) by (nonlinear_arith)
                        requires
                            buffer_num >= 1,
                            pair.size >= 0,
                            BUFFER_HEADER_SIZE >= 0,
                    ;
                    assert(list::list_mem_size(buffer_num as int, pair.size as int)
                        == BUFFER_LIST_HEADER_SIZE + buffer_num * (pair.size
                        + BUFFER_HEADER_SIZE));
                    had_used_offset = had_used_offset + list::count_buffer_list_mem_size(
                        buffer_num,
                        pair.size,
                    );
                    lists.push(l);
                },
                Err(e) => {
                    assert(Self::pair_error(pairs, cap, i as int) == Some(ManagerError::List(e)));
                    return Err(ManagerError::List(e));
                },
            }
            i += 1;
        }
        let ghost before = mem@;
        mem::set_u32(
            mem,
            offset as usize + BM_CAP_OFFSET as usize,
            had_used_offset - BUFFER_MANAGER_HEADER_SIZE,
        );
        proof {
            assert forall|k: int| 0 <= k < n implies {
                &&& (#[trigger] lists@[k]).wf(mem@)
                &&& lists@[k].free(mem@) == lists@[k].all_nodes()
                &&& lists@[k].counter(mem@) == 0
                &&& lists@[k].none_marked(mem@)
                &&& mem::same_range(
                    old(mem)@,
                    mem@,
                    lists@[k].offset_in_shm + 24,
                    lists@[k].region(),
                )
            } by {
                lists@[k].lemma_fits(before);
                Self::lemma_list_start_mono(pairs, cap, offset as int, k);
                Self::lemma_list_same(lists@[k], before, mem@);
            }
            assert(lists@[0].cap_per_buffer == pairs[0].size);
            assert(lists@[n - 1].cap_per_buffer == pairs[n - 1].size);
            assert forall|k: int, l: int| 0 <= k < n && l == k + 1 && l < n implies (
            #[trigger] lists@[k]).end() == (#[trigger] lists@[l]).offset_in_shm by {}
        }
        Ok(
            BufferManager {
                lists,
                min_slice_size: list_size_percent[0].size,
                max_slice_size: list_size_percent[n - 1].size,
                path: path.to_owned(),
                ref_count: 1,
                mem_map_type: MemMapType::MemMapTypeDevShmFile,
                memfd: 0,
            },
        )
    }

    /// No list starts inside the manager's header.
    proof fn lemma_list_start_mono(
        pairs: Seq<SizePercentPair>,
        region_cap: int,
        offset: int,
        n: int,
    )
        requires
            0 <= n < pairs.len(),
            0 <= region_cap <= u32::MAX,
            forall|k: int|
                0 <= k < n ==> (#[trigger] Self::pair_error(pairs, region_cap, k)) is None,
        ensures
            offset + BUFFER_MANAGER_HEADER_SIZE <= Self::list_start(pairs, region_cap, offset, n),
        decreases n,
    {
        if n > 0 {
            Self::lemma_list_start_mono(pairs, region_cap, offset, n - 1);
            assert(Self::pair_error(pairs, region_cap, n - 1) is None);
            Self::lemma_percent_sum_mono(pairs, n - 1);
            Self::lemma_pair_share(region_cap, pairs[n - 1]);
        }
    }

    proof fn lemma_percent_sum_mono(pairs: Seq<SizePercentPair>, n: int)
        requires
            0 <= n < pairs.len(),
        ensures
            pairs[n].percent <= Self::percent_sum(pairs, n + 1),
            0 <= Self::percent_sum(pairs, n),
        decreases n,
    {
        reveal_with_fuel(BufferManager::percent_sum, 2);
        if n > 0 {
            Self::lemma_percent_sum_mono(pairs, n - 1);
        }
    }

    /// A list whose bytes did not change is as it was.
    proof fn lemma_list_same(l: BufferList, a: Seq<u8>, b: Seq<u8>)
        requires
            l.wf(a),
            a.len() == b.len(),
            mem::same_range(a, b, l.offset_in_shm as int, l.end()),
        ensures
            l.wf(b),
            l.free(b) == l.free(a),
            l.counter(b) == l.counter(a),
            l.none_marked(a) ==> l.none_marked(b),
    {
        l.lemma_fits(a);
        assert forall|o: int| #[trigger] l.is_node(o) implies mem::same_range(
            a,
            b,
            l.region() + o,
            l.region() + o + 4,
        ) && slice::header_flag(a, l.region() + o) == slice::header_flag(b, l.region() + o) by {
            l.lemma_node_in(o);
            assert(a[l.region() + o + 16] == b[l.region() + o + 16]);
        }
        l.lemma_caps_frame(a, b);
        let s = l.free(a);
        assert forall|k: int| 0 <= k < s.len() implies mem::same_range(
            a,
            b,
            l.region() + #[trigger] s[k],
            l.region() + s[k] + BUFFER_HEADER_SIZE,
        ) by {
            assert(l.is_node(s[k]));
            l.lemma_node_in(s[k]);
        }
        l.lemma_frame(a, b);
        mem::lemma_u32_at_same(a, b, l.offset_in_shm + l.counter_offset);
    }

    /// Where list `n` of a region that a peer set up starts.
    pub open spec fn mapped_start(m: Seq<u8>, offset: int, n: int) -> int
        decreases n,
    {
        if n <= 0 {
            offset + BUFFER_MANAGER_HEADER_SIZE
        } else {
            let o = Self::mapped_start(m, offset, n - 1);
            o + list::list_mem_size(mem::u32_at(m, o + 4) as int, mem::u32_at(m, o + 16) as int)
        }
    }

    /// The header at `offset` and the lists behind it fit the region.
    pub open spec fn can_map(m: Seq<u8>, offset: int) -> bool {
        &&& offset + BUFFER_MANAGER_HEADER_SIZE <= m.len()
        &&& BUFFER_MANAGER_HEADER_SIZE + mem::u32_at(m, offset + BM_CAP_OFFSET) <= m.len()
        &&& mem::u16_at(m, offset) > 0
        &&& forall|n: int|
            0 <= n < mem::u16_at(m, offset) ==> list::mappable(
                m,
                #[trigger] Self::mapped_start(m, offset, n),
            )
    }

    /// The lists of a region that a peer set up.
    pub open spec fn maps(self, m: Seq<u8>, offset: int) -> bool {
        &&& self.lists@.len() == mem::u16_at(m, offset)
        &&& forall|n: int|
            0 <= n < self.lists@.len() ==> {
                let o = Self::mapped_start(m, offset, n);
                &&& (#[trigger] self.lists@[n]).offset_in_shm == o
                &&& self.lists@[n].cap == mem::u32_at(m, o + 4)
                &&& self.lists@[n].cap_per_buffer == mem::u32_at(m, o + 16)
                &&& self.lists@[n].counter_offset == 24
            }
        &&& self.lists@.len() > 0 ==> {
            &&& self.min_slice_size == self.lists@[0].cap_per_buffer
            &&& self.max_slice_size == self.lists@.last().cap_per_buffer
        }
    }

    /// List `n` is the first one of the region that does not fit it.
    pub open spec fn first_unmappable(m: Seq<u8>, o: int, n: int) -> bool {
        &&& 0 <= n < mem::u16_at(m, o)
        &&& !list::mappable(m, Self::mapped_start(m, o, n))
        &&& forall|k: int|
            0 <= k < n ==> list::mappable(m, #[trigger] Self::mapped_start(m, o, k))
    }

    /// What comes of mapping the free lists at `o` in the region `m`.
    pub open spec fn mapped(
        r: Result<Self, ManagerError>,
        path: Seq<char>,
        o: int,
        m: Seq<u8>,
    ) -> bool {
        &&& r is Ok <==> Self::can_map(m, o)
        &&& match r {
            Ok(b) => {
                &&& b.maps(m, o)
                &&& b.path@ == path
                &&& b.ref_count == 1
            },
            Err(ManagerError::TooSmall { at_least, mem_len }) => {
                &&& m.len() < o + BUFFER_MANAGER_HEADER_SIZE
                &&& at_least == if m.len() <= o + BM_CAP_OFFSET {
                    o + BM_CAP_OFFSET + 1
                } else {
                    o + BUFFER_MANAGER_HEADER_SIZE
                }
                &&& mem_len == m.len()
            },
            Err(ManagerError::BrokenHeader { list_num, at_least, mem_len }) => {
                &&& o + BUFFER_MANAGER_HEADER_SIZE <= m.len()
                &&& list_num == mem::u16_at(m, o)
                &&& at_least == BUFFER_MANAGER_HEADER_SIZE + mem::u32_at(m, o + BM_CAP_OFFSET)
                &&& mem_len == m.len()
                &&& mem_len < at_least || list_num == 0
            },
            Err(ManagerError::List(e)) => {
                &&& o + BUFFER_MANAGER_HEADER_SIZE <= m.len()
                &&& BUFFER_MANAGER_HEADER_SIZE + mem::u32_at(m, o + BM_CAP_OFFSET) <= m.len()
                &&& exists|n: int| #[trigger] Self::first_unmappable(m, o, n)
                &&& forall|n: int| #[trigger]
                    Self::first_unmappable(m, o, n) ==> e == list::map_error(
                        m,
                        Self::mapped_start(m, o, n),
                    )
            },
            Err(_) => false,
        }
    }

    /// Takes hold of the free lists of a region that a peer set up.
    pub fn mapping(path: &str, mem: &[u8], buffer_region_start_offset: u32) -> (r: Result<
        Self,
        ManagerError,
    >)
        requires
            mem@.len() <= u32::MAX,
        ensures
            Self::mapped(r, path@, buffer_region_start_offset as int, mem@),
            r matches Ok(b) ==> b.mem_map_type == MemMapType::MemMapTypeDevShmFile && b.memfd == 0,
    {
        let mem_len: usize = mem.len();
        let ghost start = buffer_region_start_offset as int;
        if (mem_len as u64) < buffer_region_start_offset as u64 + BUFFER_MANAGER_HEADER_SIZE as u64 {
            let at_least: u64 = if mem_len as u64 <= buffer_region_start_offset as u64
                + BM_CAP_OFFSET as u64 {
                buffer_region_start_offset as u64 + BM_CAP_OFFSET as u64 + 1
            } else {
                buffer_region_start_offset as u64 + BUFFER_MANAGER_HEADER_SIZE as u64
            };
            return Err(ManagerError::TooSmall { at_least, mem_len });
        }
        let list_num: u16 = mem::get_u16(mem, buffer_region_start_offset as usize);
        let length: u32 = mem::get_u32(
            mem,
            buffer_region_start_offset as usize + BM_CAP_OFFSET as usize,
        );
        let at_least: u64 = BUFFER_MANAGER_HEADER_SIZE as u64 + length as u64;
        if (mem_len as u64) < at_least || list_num == 0 {
            return Err(ManagerError::BrokenHeader { list_num, at_least, mem_len });
        }
        let mut next_offset: u32 = buffer_region_start_offset + BUFFER_MANAGER_HEADER_SIZE;
        let mut lists: Vec<BufferList> = Vec::new();
        let mut i: u16 = 0;
        while i < list_num
            invariant
                0 <= i <= list_num,
                list_num == mem::u16_at(mem@, start),
                start == buffer_region_start_offset,
                mem_len == mem@.len(),
                mem_len <= u32::MAX,
                start + BUFFER_MANAGER_HEADER_SIZE <= mem@.len(),
                BUFFER_MANAGER_HEADER_SIZE + mem::u32_at(mem@, start + BM_CAP_OFFSET)
                    <= mem@.len(),
                next_offset == Self::mapped_start(mem@, start, i as int),
                lists@.len() == i,
                forall|n: int|
                    0 <= n < i ==> list::mappable(
                        mem@,
                        #[trigger] Self::mapped_start(mem@, start, n),
                    ),
                forall|n: int|
                    0 <= n < i ==> {
                        let o = Self::mapped_start(mem@, start, n);
                        &&& (#[trigger] lists@[n]).offset_in_shm == o
                        &&& lists@[n].cap == mem::u32_at(mem@, o + 4)
                        &&& lists@[n].cap_per_buffer == mem::u32_at(mem@, o + 16)
                        &&& lists@[n].counter_offset == 24
                    },
            decreases list_num - i,
        {
            match BufferList::mapping(mem, next_offset) {
                Ok(l) => {
                    let size: u128 = list::wide_list_mem_size(l.cap, l.cap_per_buffer);
                    next_offset = next_offset + size as u32;
                    lists.push(l);
                },
                Err(e) => {
                    proof {
                        assert(Self::first_unmappable(mem@, start, i as int));
                        assert forall|n: int| #[trigger]
                            Self::first_unmappable(mem@, start, n) implies n == i by {
                            if n < i {
                                assert(list::mappable(
                                    mem@,
                                    Self::mapped_start(mem@, start, n),
                                ));
                            } else if i < n {
                                assert(list::mappable(
                                    mem@,
                                    Self::mapped_start(mem@, start, i as int),
                                ));
                            }
                        }
                    }
                    return Err(ManagerError::List(e));
                },
            }
            i += 1;
        }
        let n: usize = lists.len();
        let min_slice_size: u32 = lists[0].cap_per_buffer;
        let max_slice_size: u32 = lists[n - 1].cap_per_buffer;
        Ok(
            BufferManager {
                lists,
                min_slice_size,
                max_slice_size,
                path: path.to_owned(),
                ref_count: 1,
                mem_map_type: MemMapType::MemMapTypeDevShmFile,
                memfd: 0,
            },
        )
    }

    /// A manager over a region is laid out from `offset` on: its header counts its lists, and
    /// they follow one another.
    pub open spec fn laid_out(self, m: Seq<u8>, offset: int) -> bool {
        &&& self.wf(m)
        &&& mem::u16_at(m, offset) == self.lists@.len()
        &&& offset + BUFFER_MANAGER_HEADER_SIZE == self.lists@[0].offset_in_shm
        &&& BUFFER_MANAGER_HEADER_SIZE + mem::u32_at(m, offset + BM_CAP_OFFSET) <= m.len()
        &&& forall|i: int, j: int|
            0 <= i < self.lists@.len() && j == i + 1 && j < self.lists@.len() ==> (
            #[trigger] self.lists@[i]).end() == (#[trigger] self.lists@[j]).offset_in_shm
    }

    /// A region that can be mapped stays so, whatever is taken out of its lists, written and given
    /// back.
    pub proof fn law_region_stays_mappable(
        self,
        a: Seq<u8>,
        b: Seq<u8>,
        own: Set<int>,
        offset: int,
    )
        requires
            0 <= offset,
            self.laid_out(a, offset),
            self.keeps(a, b, own),
            self.wf(b),
        ensures
            self.laid_out(b, offset),
            Self::can_map(b, offset),
    {
        reveal(BufferManager::keeps);
        let first = self.lists@[0];
        assert(first.wf(a));
        first.lemma_fits(a);
        assert forall|i: int| offset <= i < first.offset_in_shm implies a[i] == b[i] by {
            assert forall|k: int| 0 <= k < self.lists@.len() implies !(
            #[trigger] self.lists@[k]).holds(i) by {
                assert(self.lists@[k].wf(a));
                if k > 0 {
                    assert(first.end() <= self.lists@[k].offset_in_shm);
                }
            }
            assert(self.is_foreign(i));
        }
        assert(mem::u16_at(b, offset) == mem::u16_at(a, offset)) by {
            assert(a[offset] == b[offset] && a[offset + 1] == b[offset + 1]);
        }
        mem::lemma_u32_at_same(a, b, offset + BM_CAP_OFFSET);
        self.law_set_up_can_be_mapped(b, offset);
    }

    /// What one side takes out and gives back leaves the counts of the other side.
    pub proof fn law_other_side_counts_for_itself(
        self,
        peer: Self,
        a: Seq<u8>,
        b: Seq<u8>,
        own: Set<int>,
    )
        requires
            self.wf(a),
            self.keeps(a, b, own),
            peer.lists@.len() == self.lists@.len(),
            forall|i: int|
                0 <= i < self.lists@.len() ==> {
                    &&& (#[trigger] self.lists@[i]).offset_in_shm == peer.lists@[i].offset_in_shm
                    &&& self.lists@[i].counter_offset != peer.lists@[i].counter_offset
                    &&& peer.lists@[i].counter_offset == 20 || peer.lists@[i].counter_offset == 24
                },
        ensures
            peer.counters(b) == peer.counters(a),
    {
        reveal(BufferManager::keeps);
        assert forall|j: int| 0 <= j < peer.lists@.len() implies (
        #[trigger] peer.lists@[j]).counter(b) == peer.lists@[j].counter(a) by {
            let l = self.lists@[j];
            assert(l.wf(a));
            l.lemma_fits(a);
            let o = l.offset_in_shm + peer.lists@[j].counter_offset;
            assert forall|i: int| o <= i < o + 4 implies a[i] == b[i] by {
                assert forall|k: int| 0 <= k < self.lists@.len() implies !(
                #[trigger] self.lists@[k]).holds(i) by {
                    assert(self.lists@[k].wf(a));
                    self.lists@[k].lemma_fits(a);
                    if k < j {
                        assert(self.lists@[k].end() <= l.offset_in_shm);
                    } else if j < k {
                        assert(l.end() <= self.lists@[k].offset_in_shm);
                    }
                }
                assert(self.is_foreign(i));
            }
            mem::lemma_u32_at_same(a, b, o);
        }
        assert(peer.counters(b) =~= peer.counters(a));
    }

    /// What one side set up, the other can map.
    pub proof fn law_set_up_can_be_mapped(self, m: Seq<u8>, offset: int)
        requires
            0 <= offset,
            self.laid_out(m, offset),
        ensures
            Self::can_map(m, offset),
    {
        let n = self.lists@.len() as int;
        assert forall|i: int| 0 <= i < n implies list::mappable(
            m,
            #[trigger] Self::mapped_start(m, offset, i),
        ) by {
            self.lemma_mapped_start(m, offset, i);
            let o = self.lists@[i].offset_in_shm;
            let peer = BufferList {
                offset_in_shm: o,
                cap: mem::u32_at(m, o + 4),
                cap_per_buffer: mem::u32_at(m, o + 16),
                counter_offset: 24,
            };
            list::law_mapping_finds_the_list(self.lists@[i], peer, m);
        }
        self.lists@[0].lemma_fits(m);
        assert(Self::mapped_start(m, offset, 0) == offset + BUFFER_MANAGER_HEADER_SIZE);
        self.lemma_mapped_start(m, offset, 0);
    }

    /// What one side set up, the other can map, and it then finds the same lists with the same
    /// free buffers.
    pub proof fn law_mapping_finds_the_lists(self, peer: Self, m: Seq<u8>, offset: int)
        requires
            0 <= offset,
            self.laid_out(m, offset),
            peer.maps(m, offset),
        ensures
            Self::can_map(m, offset),
            peer.wf(m),
            peer.frees(m) == self.frees(m),
            peer.lists@.len() == self.lists@.len(),
            forall|i: int|
                0 <= i < self.lists@.len() ==> {
                    &&& (#[trigger] peer.lists@[i]).offset_in_shm == self.lists@[i].offset_in_shm
                    &&& peer.lists@[i].cap == self.lists@[i].cap
                    &&& peer.lists@[i].cap_per_buffer == self.lists@[i].cap_per_buffer
                },
    {
        let n = self.lists@.len() as int;
        assert forall|i: int| 0 <= i < n implies {
            &&& #[trigger] Self::mapped_start(m, offset, i) == self.lists@[i].offset_in_shm
            &&& list::mappable(m, self.lists@[i].offset_in_shm as int)
            &&& peer.lists@[i].wf(m)
            &&& peer.lists@[i].free(m) == self.lists@[i].free(m)
            &&& peer.lists@[i].offset_in_shm == self.lists@[i].offset_in_shm
            &&& peer.lists@[i].cap == self.lists@[i].cap
            &&& peer.lists@[i].cap_per_buffer == self.lists@[i].cap_per_buffer
        } by {
            self.lemma_mapped_start(m, offset, i);
            list::law_mapping_finds_the_list(self.lists@[i], peer.lists@[i], m);
        }
        assert forall|i: int| 0 <= i < n implies (#[trigger] peer.lists@[i]).wf(m)
            && peer.lists@[i].free(m) == self.lists@[i].free(m) && peer.lists@[i].offset_in_shm
            == self.lists@[i].offset_in_shm && peer.lists@[i].cap == self.lists@[i].cap
            && peer.lists@[i].cap_per_buffer == self.lists@[i].cap_per_buffer by {
            assert(Self::mapped_start(m, offset, i) == self.lists@[i].offset_in_shm);
        }
        self.lists@[0].lemma_fits(m);
        assert(Self::mapped_start(m, offset, 0) == offset + BUFFER_MANAGER_HEADER_SIZE);
        assert(peer.lists_apart()) by {
            assert forall|i: int, j: int| 0 <= i < j < n implies (#[trigger] peer.lists@[i]).end()
                <= (#[trigger] peer.lists@[j]).offset_in_shm by {
                assert(self.lists@[i].end() <= self.lists@[j].offset_in_shm);
            }
        }
        assert(peer.frees(m) =~= self.frees(m));
    }

    /// A buffer that was handed out, used and given back leaves nothing behind: every list has as
    /// many free buffers as before, the same ones, and the counts are what they were.
    pub proof fn law_given_back_is_returned(
        self,
        a: Seq<u8>,
        b: Seq<u8>,
        c: Seq<u8>,
        d: Seq<u8>,
        k: int,
        s: BufferSlice,
    )
        requires
            self.wf(a),
            self.hands_out(a, b, k, s),
            self.wf(b),
            self.frees(c) == self.frees(b),
            self.counters(c) == self.counters(b),
            self.gives_back(c, d, s.offset_in_shm as int),
        ensures
            self.counters(d) == self.counters(a),
            forall|i: int|
                0 <= i < self.lists@.len() ==> {
                    &&& (#[trigger] self.frees(d)[i]).len() == self.frees(a)[i].len()
                    &&& self.frees(d)[i].to_multiset() == self.frees(a)[i].to_multiset()
                },
            self.all_returned(a) ==> self.all_returned(d),
    {
        broadcast use vstd::seq_lib::group_to_multiset_ensures;

        let o = s.offset_in_shm as int;
        let l = self.lists@[k];
        assert(l.wf(a));
        assert(self.frees(a)[k] == l.free(a));
        assert(l.is_node(l.free(a)[0]));
        l.lemma_fits(a);
        l.lemma_node_in(l.free(a)[0]);
        self.lemma_list_of_from(k, o, 0);
        assert(self.counters(d) =~= self.counters(a));
        let f = self.frees(a)[k];
        let x = f[0];
        assert(self.frees(d)[k] == f.skip(1).push(x));
        assert(f =~= seq![x] + f.skip(1));
        assert(f.skip(1).push(x) =~= f.skip(1) + seq![x]);
        vstd::seq_lib::lemma_multiset_commutative(seq![x], f.skip(1));
        vstd::seq_lib::lemma_multiset_commutative(f.skip(1), seq![x]);
        assert(f.to_multiset() =~= f.skip(1).push(x).to_multiset());
        if self.all_returned(a) {
            assert forall|i: int| 0 <= i < self.lists@.len() implies {
                &&& (#[trigger] self.lists@[i]).free(d).len() == self.lists@[i].cap
                &&& self.lists@[i].counter(d) == 0
            } by {
                assert(self.frees(d)[i] == self.lists@[i].free(d));
                assert(self.frees(a)[i] == self.lists@[i].free(a));
                assert(self.counters(d)[i] == self.lists@[i].counter(d));
                assert(self.counters(a)[i] == self.lists@[i].counter(a));
            }
        }
    }

    /// Counts that say how many buffers are not free still do once a buffer is handed out.
    pub proof fn law_counts_follow_taking(self, a: Seq<u8>, b: Seq<u8>, k: int, s: BufferSlice)
        requires
            self.wf(a),
            self.hands_out(a, b, k, s),
            self.in_balance(a),
        ensures
            self.in_balance(b),
    {
        assert forall|i: int| 0 <= i < self.lists@.len() implies self.counters(b)[i] + (
        #[trigger] self.frees(b)[i]).len() == self.lists@[i].cap by {
            assert(self.counters(a)[i] + self.frees(a)[i].len() == self.lists@[i].cap);
        }
    }

    /// Counts that say how many buffers are not free still do once a buffer is given back.
    pub proof fn law_counts_follow_giving_back(self, a: Seq<u8>, b: Seq<u8>, o: int)
        requires
            self.gives_back(a, b, o),
            self.wf(b),
            self.in_balance(a),
        ensures
            self.in_balance(b),
    {
        assert forall|i: int| 0 <= i < self.lists@.len() implies self.counters(b)[i] + (
        #[trigger] self.frees(b)[i]).len() == self.lists@[i].cap by {
            assert(self.counters(a)[i] + self.frees(a)[i].len() == self.lists@[i].cap);
            let l = self.lists@[i];
            assert(l.wf(b));
            assert(self.frees(b)[i] == l.free(b));
        }
    }

    /// Every list is whole and every count is zero once every buffer was given back, and not
    /// before.
    pub proof fn law_all_given_back(self, m: Seq<u8>)
        requires
            self.wf(m),
        ensures
            self.all_returned(m) <==> self.in_balance(m) && forall|o: int|
                !#[trigger] self.is_allocated(m, o),
    {
        if self.all_returned(m) {
            assert forall|i: int| 0 <= i < self.lists@.len() implies self.counters(m)[i] + (
            #[trigger] self.frees(m)[i]).len() == self.lists@[i].cap by {
                assert(self.lists@[i].free(m).len() == self.lists@[i].cap);
            }
            assert forall|o: int| !#[trigger] self.is_allocated(m, o) by {
                if self.is_allocated(m, o) {
                    let i = choose|i: int| self.in_use(m, i, o);
                    let l = self.lists@[i];
                    assert(l.wf(m));
                    let more = l.free(m).push(o - l.region());
                    assert forall|k: int| 0 <= k < more.len() implies l.is_node(
                        #[trigger] more[k],
                    ) by {
                        if k < l.free(m).len() {
                            assert(l.is_node(l.free(m)[k]));
                        }
                    }
                    l.lemma_distinct_nodes_len(more);
                }
            }
        }
        if self.in_balance(m) && forall|o: int| !#[trigger] self.is_allocated(m, o) {
            assert forall|i: int| 0 <= i < self.lists@.len() implies {
                &&& (#[trigger] self.lists@[i]).free(m).len() == self.lists@[i].cap
                &&& self.lists@[i].counter(m) == 0
            } by {
                let l = self.lists@[i];
                assert(l.wf(m));
                assert forall|x: int| l.is_node(x) implies l.free(m).contains(x) by {
                    if !l.free(m).contains(x) {
                        assert(self.in_use(m, i, l.region() + x));
                        assert(self.is_allocated(m, l.region() + x));
                    }
                }
                l.lemma_all_free(m);
                assert(self.frees(m)[i] == l.free(m));
                assert(self.counters(m)[i] == l.counter(m));
            }
        }
    }

    proof fn lemma_mapped_start(self, m: Seq<u8>, offset: int, i: int)
        requires
            self.laid_out(m, offset),
            0 <= i < self.lists@.len(),
        ensures
            Self::mapped_start(m, offset, i) == self.lists@[i].offset_in_shm,
        decreases i,
    {
        if i > 0 {
            self.lemma_mapped_start(m, offset, i - 1);
            assert(self.lists@[i - 1].wf(m));
            assert(self.lists@[i - 1].end() == self.lists@[i].offset_in_shm);
        }
    }
}

/// The pairs in ascending order of size; pairs of one size stay in order.
pub open spec fn sorted_by_size(pairs: Seq<SizePercentPair>) -> bool {
    forall|i: int, j: int|
        0 <= i < j < pairs.len() ==> (#[trigger] pairs[i]).size <= (#[trigger] pairs[j]).size
}

/// Sorts the pairs by size.
pub fn sort_pairs(pairs: &mut Vec<SizePercentPair>)
    ensures
        sorted_by_size(final(pairs)@),
        final(pairs)@.to_multiset() == old(pairs)@.to_multiset(),
        final(pairs)@.len() == old(pairs)@.len(),
        forall|size: u32|
            #![trigger of_size(final(pairs)@, size)]
            of_size(final(pairs)@, size) == of_size(old(pairs)@, size),
{
    let ghost p0 = pairs@;
    let n: usize = pairs.len();
    let mut i: usize = 0;
    while i < n
        invariant
            0 <= i <= n,
            n == pairs@.len(),
            n == p0.len(),
            forall|a: int, b: int|
                0 <= a < b < i ==> (#[trigger] pairs@[a]).size <= (#[trigger] pairs@[b]).size,
            pairs@.to_multiset() == p0.to_multiset(),
            forall|size: u32|
                #![trigger of_size(pairs@, size)]
                of_size(pairs@, size) == of_size(p0, size),
        decreases n - i,
    {
        let mut j: usize = i;
        while j > 0 && pairs[j - 1].size > pairs[j].size
            invariant
                0 <= j <= i < n,
                n == pairs@.len(),
                n == p0.len(),
                pairs@.to_multiset() == p0.to_multiset(),
                forall|size: u32|
                    #![trigger of_size(pairs@, size)]
                    of_size(pairs@, size) == of_size(p0, size),
                forall|a: int, b: int|
                    0 <= a < b <= i && b != j ==> (#[trigger] pairs@[a]).size <= (
                    #[trigger] pairs@[b]).size,
            decreases j,
        {
            let ghost before = pairs@;
            let x = pairs[j - 1];
            let y = pairs[j];
            pairs.set(j - 1, y);
            pairs.set(j, x);
            proof {
                lemma_swap_neighbours(before, j - 1);
                assert(pairs@ =~= before.update(j - 1, y).update(j as int, x));
            }
            j -= 1;
        }
        i += 1;
    }
}

/// The pairs of one size, in order.
pub open spec fn of_size(pairs: Seq<SizePercentPair>, size: u32) -> Seq<SizePercentPair> {
    pairs.filter(|p: SizePercentPair| p.size == size)
}

/// Swapping two neighbours of different size keeps the pairs, and those of each size in order.
proof fn lemma_swap_neighbours(p: Seq<SizePercentPair>, k: int)
    requires
        0 <= k,
        k + 1 < p.len(),
        p[k].size != p[k + 1].size,
    ensures
        ({
            let q = p.update(k, p[k + 1]).update(k + 1, p[k]);
            &&& q.to_multiset() == p.to_multiset()
            &&& forall|size: u32| #![trigger of_size(q, size)] of_size(q, size) == of_size(p, size)
        }),
{
    broadcast use vstd::seq_lib::group_to_multiset_ensures;
    broadcast use vstd::seq::group_seq_axioms;

    let q = p.update(k, p[k + 1]).update(k + 1, p[k]);
    let a = p.take(k);
    let x = p[k];
    let y = p[k + 1];
    let c = p.skip(k + 2);
    assert(p =~= a + seq![x, y] + c);
    assert(q =~= a + seq![y, x] + c);
    vstd::seq_lib::lemma_multiset_commutative(a + seq![x, y], c);
    vstd::seq_lib::lemma_multiset_commutative(a, seq![x, y]);
    vstd::seq_lib::lemma_multiset_commutative(a + seq![y, x], c);
    vstd::seq_lib::lemma_multiset_commutative(a, seq![y, x]);
    assert(seq![x, y] =~= seq![x] + seq![y]);
    assert(seq![y, x] =~= seq![y] + seq![x]);
    vstd::seq_lib::lemma_multiset_commutative(seq![x], seq![y]);
    vstd::seq_lib::lemma_multiset_commutative(seq![y], seq![x]);
    assert forall|size: u32| #![trigger of_size(q, size)] of_size(q, size) == of_size(p, size) by {
        let f = |s: SizePercentPair| s.size == size;
        Seq::filter_distributes_over_add(a + seq![x, y], c, f);
        Seq::filter_distributes_over_add(a, seq![x, y], f);
        Seq::filter_distributes_over_add(a + seq![y, x], c, f);
        Seq::filter_distributes_over_add(a, seq![y, x], f);
        reveal_with_fuel(Seq::filter, 3);
        assert(seq![x, y].filter(f) =~= seq![y, x].filter(f)) by {
            assert(seq![x, y].drop_last() =~= seq![x]);
            assert(seq![y, x].drop_last() =~= seq![y]);
            assert(seq![x].drop_last() =~= Seq::empty());
            assert(seq![y].drop_last() =~= Seq::empty());
        }
    }
}

proof fn lemma_first_fit(bm: BufferManager, size: int, k: int, i: int)
    requires
        0 <= i <= k <= bm.lists@.len(),
        forall|j: int| i <= j < k ==> (#[trigger] bm.lists@[j]).cap_per_buffer < size,
        k < bm.lists@.len() ==> size <= bm.lists@[k].cap_per_buffer,
    ensures
        bm.first_fit(size, i) == k,
    decreases k - i,
{
    if i < k {
        assert(bm.lists@[i].cap_per_buffer < size);
        lemma_first_fit(bm, size, k, i + 1);
    }
}

/// A buffer is handed out by the first list whose buffers are large enough, as long as that list has
/// one besides its last; it is the one that was free the longest, and no other list takes notice.
/// Where that list has none to spare, nothing is handed out, though a list of larger buffers may
/// have some.
pub proof fn law_first_list_that_fits_serves(
    bm: &BufferManager,
    m: &mut [u8],
    size: u32,
    k: int,
    r: Result<BufferSlice, Error>,
)
    requires
        bm.wf(old(m)@),
        0 <= k < bm.lists@.len(),
        size <= bm.lists@[k].cap_per_buffer,
        forall|j: int| 0 <= j < k ==> (#[trigger] bm.lists@[j]).cap_per_buffer < size,
        size <= bm.max_slice_size,
        call_ensures(BufferManager::alloc_shm_buffer, (bm, m, size), r),
    ensures
        r is Ok <==> bm.lists@[k].free(old(m)@).len() > 1,
        r is Err ==> r->Err_0 is NoMoreBuffer && final(m)@ == old(m)@,
        r is Ok ==> {
            let l = bm.lists@[k];
            &&& r->Ok_0.is_from_shm
            &&& r->Ok_0.cap == l.cap_per_buffer
            &&& r->Ok_0.offset_in_shm == l.region() + l.free(old(m)@)[0]
            &&& r->Ok_0.read_index == 0 && r->Ok_0.write_index == 0
            &&& l.free(final(m)@) == l.free(old(m)@).skip(1)
            &&& forall|i: int|
                0 <= i < bm.lists@.len() && i != k ==> (#[trigger] bm.lists@[i]).free(final(m)@)
                    == bm.lists@[i].free(old(m)@)
        },
{
    lemma_first_fit(*bm, size as int, k, 0);
    assert(bm.frees(old(m)@)[k] == bm.lists@[k].free(old(m)@));
    if r is Ok {
        assert forall|i: int| 0 <= i < bm.lists@.len() implies (#[trigger] bm.lists@[i]).free(
            final(m)@,
        ) == bm.frees(final(m)@)[i] by {}
        assert forall|i: int| 0 <= i < bm.lists@.len() implies (#[trigger] bm.lists@[i]).free(
            old(m)@,
        ) == bm.frees(old(m)@)[i] by {}
    }
}

/// What is larger than every buffer is not handed out in one piece.
pub proof fn law_too_large_is_not_handed_out(
    bm: &BufferManager,
    m: &mut [u8],
    size: u32,
    r: Result<BufferSlice, Error>,
)
    requires
        forall|j: int| 0 <= j < bm.lists@.len() ==> (#[trigger] bm.lists@[j]).cap_per_buffer < size,
        call_ensures(BufferManager::alloc_shm_buffer, (bm, m, size), r),
    ensures
        r is Err && r->Err_0 is NoMoreBuffer,
        final(m)@ == old(m)@,
{
    lemma_first_fit(*bm, size as int, bm.lists@.len() as int, 0);
}

/// A buffer that was handed out and given back stands at the end of its list again, and every list
/// has as many free buffers as before.
pub proof fn law_given_back_can_be_handed_out_again(
    bm: &BufferManager,
    m: &mut [u8],
    size: u32,
    r: Result<BufferSlice, Error>,
    n: &mut [u8],
    i: int,
)
    requires
        bm.wf(old(m)@),
        call_ensures(BufferManager::alloc_shm_buffer, (bm, m, size), r),
        r is Ok,
        old(n)@ == final(m)@,
        call_ensures(BufferManager::recycle_buffer, (bm, n, r->Ok_0), ()),
        0 <= i < bm.lists@.len(),
    ensures
        bm.is_allocated(final(m)@, r->Ok_0.offset_in_shm as int),
        !bm.is_allocated(final(n)@, r->Ok_0.offset_in_shm as int),
        bm.lists@[i].free(final(n)@).len() == bm.lists@[i].free(old(m)@).len(),
        bm.lists@[i].free(final(n)@).to_multiset() =~= bm.lists@[i].free(
            old(m)@,
        ).to_multiset(),
{
    let k = bm.first_fit(size as int, 0);
    let s = r->Ok_0;
    let l = bm.lists@[k];
    let o = s.offset_in_shm as int;
    assert(bm.owns(final(m)@, s));
    let j = choose|j: int| #[trigger] bm.in_use(final(m)@, j, o);
    bm.lemma_list_of(final(m)@, j, o);
    bm.lemma_in_use(final(m)@, j, o);
    bm.lists@[j].lemma_fits(final(m)@);
    assert(bm.frees(old(m)@)[k] == l.free(old(m)@));
    l.lemma_fits(old(m)@);
    let f = l.free(old(m)@);
    assert(f.contains(f[0]));
    assert(l.is_node(f[0]));
    l.lemma_node_in(f[0]);
    if j < k {
        assert(bm.lists@[j].end() <= l.offset_in_shm);
    } else if k < j {
        assert(l.end() <= bm.lists@[j].offset_in_shm);
    }
    assert(j == k);
    assert(bm.frees(final(n)@)[i] == bm.lists@[i].free(final(n)@));
    assert(bm.frees(final(m)@)[i] == bm.lists@[i].free(final(m)@));
    assert(bm.frees(old(m)@)[i] == bm.lists@[i].free(old(m)@));
    if i == k {
        let g = f.skip(1).push(f[0]);
        assert(l.free(final(n)@) == g);
        broadcast use vstd::seq_lib::group_to_multiset_ensures;

        assert(f =~= seq![f[0]] + f.skip(1));
        vstd::seq_lib::lemma_multiset_commutative(seq![f[0]], f.skip(1));
        assert(g =~= f.skip(1) + seq![f[0]]);
        vstd::seq_lib::lemma_multiset_commutative(f.skip(1), seq![f[0]]);
    }
}

/// Where several buffers are handed out, the largest come first, and they hold what was asked for,
/// unless no list has one besides its last any more.
pub proof fn law_largest_come_first(
    bm: &BufferManager,
    m: &mut [u8],
    slices: &mut SliceList,
    size: u32,
    r: i64,
)
    requires
        bm.wf(old(m)@),
        size > 0,
        call_ensures(BufferManager::alloc_shm_buffers, (bm, m, slices, size), r),
    ensures
        bm.lists@.last().free(old(m)@).len() > 1 ==> {
            &&& final(slices)@.len() > old(slices)@.len()
            &&& final(slices)@[old(slices)@.len() as int].cap == bm.max_slice_size
            &&& r >= bm.max_slice_size
        },
        (forall|i: int|
            0 <= i < bm.lists@.len() ==> (#[trigger] bm.lists@[i]).free(old(m)@).len() <= 1)
            ==> r == 0 && final(slices)@.len() == old(slices)@.len(),
        final(slices)@.take(old(slices)@.len() as int) == old(slices)@,
{
    let f = bm.frees(old(m)@);
    let n = bm.lists@.len() - 1;
    let taken = bm.plan(f, n, 0, size as int);
    assert(f[n] == bm.lists@[n].free(old(m)@));
    if f[n].len() > 1 {
        let rest = bm.plan(f, n, 1, size - bm.lists@[n].cap_per_buffer);
        assert(taken == seq![(n, f[n][0])] + rest);
        assert(taken[0] == (n, f[n][0]));
        let s = final(slices)@[old(slices)@.len() + 0int];
        assert(bm.is_taken(taken[0], s));
        lemma_taken_at_least(*bm, taken);
    }
    if forall|i: int|
        0 <= i < bm.lists@.len() ==> (#[trigger] bm.lists@[i]).free(old(m)@).len() <= 1 {
        assert forall|i: int| 0 <= i < f.len() implies (#[trigger] f[i]).len() <= 1 by {
            assert(f[i] == bm.lists@[i].free(old(m)@));
        }
        lemma_nothing_planned(*bm, f, n, size as int);
    }
}

proof fn lemma_taken_at_least(bm: BufferManager, taken: Seq<(int, int)>)
    requires
        taken.len() > 0,
    ensures
        bm.taken_size(taken) >= bm.lists@[taken[0].0].cap_per_buffer,
    decreases taken.len(),
{
    if taken.len() == 1 {
        assert(taken.drop_last() =~= Seq::empty());
        assert(bm.taken_size(taken.drop_last()) == 0);
    } else {
        lemma_taken_at_least(bm, taken.drop_last());
    }
}

proof fn lemma_nothing_planned(bm: BufferManager, f: Seq<Seq<int>>, i: int, remain: int)
    requires
        i < f.len(),
        forall|j: int| 0 <= j < f.len() ==> (#[trigger] f[j]).len() <= 1,
    ensures
        bm.plan(f, i, 0, remain).len() == 0,
    decreases i + 1,
{
    if i >= 0 && remain > 0 {
        assert(f[i].len() <= 1);
        lemma_nothing_planned(bm, f, i - 1, remain);
    }
}

proof fn lemma_sums_after(
    bm: BufferManager,
    a: Seq<u8>,
    b: Seq<u8>,
    k: int,
    n: int,
)
    requires
        0 <= k < bm.lists@.len(),
        0 <= n <= bm.lists@.len(),
        bm.frees(a)[k].len() > 0,
        bm.frees(b) == bm.frees(a).update(k, bm.frees(a)[k].skip(1)),
    ensures
        bm.free_count(b, n) == bm.free_count(a, n) - if k < n {
            1int
        } else {
            0
        },
        bm.free_bytes(b, n) == bm.free_bytes(a, n) - if k < n {
            bm.lists@[k].cap_per_buffer as int
        } else {
            0
        },
    decreases n,
{
    if n > 0 {
        lemma_sums_after(bm, a, b, k, n - 1);
        if k == n - 1 {
            let c = bm.lists@[k].cap_per_buffer as int;
            let x = bm.frees(a)[k].len() as int;
            assert((x - 1) * c == x * c - c) by (nonlinear_arith);
        }
    }
}

/// One buffer fewer is free after one was handed out, and as many bytes fewer as it holds.
pub proof fn law_what_is_handed_out_is_not_free(
    bm: &BufferManager,
    m: &mut [u8],
    size: u32,
    r: Result<BufferSlice, Error>,
    bytes: (u32, u32),
    buffers: (isize, isize),
)
    requires
        call_ensures(BufferManager::remain_size, (bm, &*old(m)), bytes.0),
        call_ensures(BufferManager::slice_size, (bm, &*old(m)), buffers.0),
        call_ensures(BufferManager::alloc_shm_buffer, (bm, m, size), r),
        r is Ok,
        call_ensures(BufferManager::remain_size, (bm, &*final(m)), bytes.1),
        call_ensures(BufferManager::slice_size, (bm, &*final(m)), buffers.1),
    ensures
        buffers.1 == buffers.0 - 1,
        bytes.1 == bytes.0 - r->Ok_0.cap,
{
    let k = bm.first_fit(size as int, 0);
    lemma_sums_after(*bm, old(m)@, final(m)@, k, bm.lists@.len() as int);
}

/// Free lists are put in order by the size of their buffers, and none is lost or added.
pub proof fn law_lists_are_put_in_order(pairs: &mut Vec<SizePercentPair>, i: int, j: int)
    requires
        call_ensures(sort_pairs, (pairs,), ()),
        0 <= i < j < final(pairs)@.len(),
    ensures
        final(pairs)@[i].size <= final(pairs)@[j].size,
        final(pairs)@.to_multiset() == old(pairs)@.to_multiset(),
{
}

proof fn lemma_put_back_grows(bm: BufferManager, frees: Seq<Seq<int>>, q: Seq<int>)
    requires
        forall|j: int| 0 <= j < q.len() ==> 0 <= bm.list_of(#[trigger] q[j], 0) < frees.len(),
    ensures
        bm.put_back(frees, q).len() == frees.len(),
        forall|k: int, x: int|
            #![trigger bm.put_back(frees, q)[k].contains(x)]
            0 <= k < frees.len() && frees[k].contains(x) ==> bm.put_back(frees, q)[k].contains(x),
    decreases q.len(),
{
    if q.len() > 0 {
        assert(forall|j: int| 0 <= j < q.len() - 1 ==> #[trigger] q.drop_last()[j] == q[j]);
        lemma_put_back_grows(bm, frees, q.drop_last());
        let f = bm.put_back(frees, q.drop_last());
        let l = bm.list_of(q.last(), 0);
        let g = f[l].push(q.last() - bm.lists@[l].region());
        assert forall|k: int, x: int|
            #![trigger bm.put_back(frees, q)[k].contains(x)]
            0 <= k < frees.len() && frees[k].contains(x) implies bm.put_back(frees, q)[k].contains(
            x,
        ) by {
            assert(f[k].contains(x));
            if k == l {
                let i = choose|i: int| 0 <= i < f[k].len() && f[k][i] == x;
                assert(g[i] == x);
            }
        }
    }
}

proof fn lemma_put_back_holds(bm: BufferManager, frees: Seq<Seq<int>>, q: Seq<int>, i: int)
    requires
        0 <= i < q.len(),
        forall|j: int| 0 <= j < q.len() ==> 0 <= bm.list_of(#[trigger] q[j], 0) < frees.len(),
    ensures
        ({
            let k = bm.list_of(q[i], 0);
            bm.put_back(frees, q)[k].contains(q[i] - bm.lists@[k].region())
        }),
    decreases q.len(),
{
    let k = bm.list_of(q[i], 0);
    let x = q[i] - bm.lists@[k].region();
    let f = bm.put_back(frees, q.drop_last());
    assert(forall|j: int| 0 <= j < q.len() - 1 ==> #[trigger] q.drop_last()[j] == q[j]);
    lemma_put_back_grows(bm, frees, q.drop_last());
    let l = bm.list_of(q.last(), 0);
    let g = f[l].push(q.last() - bm.lists@[l].region());
    if i < q.len() - 1 {
        lemma_put_back_holds(bm, frees, q.drop_last(), i);
        assert(f[k].contains(x));
        if k == l {
            let j = choose|j: int| 0 <= j < f[k].len() && f[k][j] == x;
            assert(g[j] == x);
        }
    } else {
        assert(g[g.len() - 1] == x);
    }
}

/// After buffers were put back one by one, every one of them is free.
pub proof fn law_chain_goes_back_whole(
    bm: BufferManager,
    a: Seq<u8>,
    q: Seq<int>,
    b: Seq<u8>,
    i: int,
)
    requires
        bm.wf(a),
        bm.wf(b),
        bm.is_chain(a, q),
        bm.frees(b) == bm.put_back(bm.frees(a), bm.chain_from(a, q[0])),
        0 <= i < q.len(),
    ensures
        !bm.is_allocated(b, q[i]),
{
    bm.lemma_chain_unique(a, q);
    let o = q[i];
    assert(bm.is_allocated(a, o));
    let k = choose|k: int| #[trigger] bm.in_use(a, k, o);
    bm.lemma_list_of(a, k, o);
    assert forall|j: int| 0 <= j < q.len() implies 0 <= bm.list_of(#[trigger] q[j], 0)
        < bm.frees(a).len() by {
        assert(bm.is_allocated(a, q[j]));
        let l = choose|l: int| #[trigger] bm.in_use(a, l, q[j]);
        bm.lemma_list_of(a, l, q[j]);
    }
    lemma_put_back_holds(bm, bm.frees(a), q, i);
    assert(bm.frees(b)[k] == bm.lists@[k].free(b));
    if bm.is_allocated(b, o) {
        let j = choose|j: int| #[trigger] bm.in_use(b, j, o);
        bm.lemma_list_of(b, j, o);
    }
}

/// A chain that is given back by its first buffer goes back whole.
pub proof fn law_whole_chain_is_given_back(
    bm: &BufferManager,
    m: &mut [u8],
    slice: BufferSlice,
    q: Seq<int>,
    i: int,
)
    requires
        call_ensures(BufferManager::recycle_buffers, (bm, m, slice), ()),
        slice.is_from_shm,
        bm.is_chain(old(m)@, q),
        q[0] == slice.offset_in_shm,
        0 <= i < q.len(),
    ensures
        !bm.is_allocated(final(m)@, q[i]),
{
    bm.lemma_chain_unique(old(m)@, q);
}

/// A region is shared out as it was asked for: list after list, each with buffers of its size, as
/// many as its share of the region holds with their headers, and all of them free.
pub proof fn law_lists_get_their_share(
    pairs: &[SizePercentPair],
    path: &str,
    m: &mut [u8],
    offset: u32,
    r: Result<BufferManager, ManagerError>,
    i: int,
)
    requires
        call_ensures(BufferManager::create, (pairs, path, m, offset), r),
        r is Ok,
        0 <= i < pairs@.len(),
    ensures
        ({
            let l = r->Ok_0.lists@[i];
            let region = old(m)@.len() - offset - 36 * pairs@.len() - 8;
            let share = region * pairs@[i].percent / 100;
            &&& r->Ok_0.lists@.len() == pairs@.len()
            &&& l.cap_per_buffer == pairs@[i].size
            &&& l.cap * (l.cap_per_buffer + 20) <= share < (l.cap + 1) * (l.cap_per_buffer + 20)
            &&& i == 0 ==> l.offset_in_shm == offset + 8
            &&& i + 1 < pairs@.len() ==> r->Ok_0.lists@[i + 1].offset_in_shm == l.offset_in_shm + 36
                + l.cap * (l.cap_per_buffer + 20)
            &&& l.free(final(m)@).len() == l.cap
            &&& l.counter(final(m)@) == 0
        }),
        r->Ok_0.path@ == path@,
        r->Ok_0.ref_count == 1,
{
    let b = r->Ok_0;
    let l = b.lists@[i];
    let cap = BufferManager::region_cap(old(m)@.len() as int, offset as int, pairs@.len() as int);
    let d = pairs@[i].size + 20;
    let x = cap * pairs@[i].percent / 100;
    lemma_fundamental_div_mod(x, d);
    let n = x / d;
    assert(n * d <= x < (n + 1) * d) by (nonlinear_arith)
        requires
            x == d * n + x % d,
            0 <= x % d < d,
    ;
    if i + 1 < pairs@.len() {
        let next = b.lists@[i + 1];
        assert(next.offset_in_shm == BufferManager::list_start(pairs@, cap, offset as int, i + 1));
    }
}

/// A buffer is found where its header and its bytes lie in the region, as large as its header says,
/// with what its header says to be written there and nothing of it read.
pub proof fn law_buffer_is_found_at_its_position(
    bm: BufferManager,
    mem: &[u8],
    offset: u32,
    r: Result<BufferSlice, ManagerError>,
)
    requires
        call_ensures(BufferManager::read_buffer_slice, (&bm, mem, offset), r),
    ensures
        ({
            let cap = slice::header_cap(mem@, offset as int);
            &&& r is Ok <==> offset + 20 < mem@.len() && offset + 20 + cap <= mem@.len()
            &&& offset + 20 >= mem@.len() ==> r is Err && r->Err_0 is UnexpectedOffset
            &&& r matches Ok(s) ==> {
                &&& s.is_from_shm
                &&& s.offset_in_shm == offset
                &&& s.cap == cap
                &&& s.read_index == 0
                &&& s.write_index - s.start == slice::header_size(mem@, offset as int)
            }
        }),
{
}

} // verus!
