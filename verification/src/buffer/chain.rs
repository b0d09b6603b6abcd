//! Chains of buffers as a peer announces them: whether a position starts one, and which buffers it
//! leads through.

use vstd::prelude::*;

use crate::buffer::manager::{BufferManager, BUFFER_HEADER_SIZE};
use crate::buffer::slice;
use crate::buffer::slice::BufferHeader;

verus! {

/// The positions as numbers.
pub open spec fn positions(v: Seq<u32>) -> Seq<int> {
    v.map_values(|o: u32| o as int)
}

/// Whether the position is one of these.
pub fn is_among(v: &Vec<u32>, o: u32) -> (r: bool)
    ensures
        r == positions(v@).contains(o as int),
{
    let mut i: usize = 0;
    while i < v.len()
        invariant
            0 <= i <= v@.len(),
            forall|j: int| 0 <= j < i ==> v@[j] != o,
        decreases v@.len() - i,
    {
        if v[i] == o {
            assert(positions(v@)[i as int] == o);
            return true;
        }
        i = i + 1;
    }
    assert forall|j: int| 0 <= j < positions(v@).len() implies positions(v@)[j] != o by {
        assert(v@[j] != o);
    }
    false
}

/// Distinct positions of a region are no more than it has bytes.
proof fn lemma_positions_len(q: Seq<int>, n: int)
    requires
        q.no_duplicates(),
        0 <= n,
        forall|i: int| 0 <= i < q.len() ==> 0 <= #[trigger] q[i] < n,
    ensures
        q.len() <= n,
{
    q.unique_seq_to_set();
    vstd::set_lib::lemma_int_range(0, n);
    assert(q.to_set().subset_of(vstd::set_lib::set_int_range(0, n)));
    vstd::set_lib::lemma_len_subset(q.to_set(), vstd::set_lib::set_int_range(0, n));
}

impl BufferManager {
    /// Whether the header of a buffer in use stands at `offset`.
    pub fn is_in_use(&self, mem: &[u8], offset: u32) -> (r: bool)
        requires
            self.wf(mem@),
        ensures
            r == self.is_allocated(mem@, offset as int),
    {
        let n: usize = self.lists.len();
        let mut i: usize = 0;
        while i < n
            invariant
                n == self.lists@.len(),
                0 <= i <= n,
                self.wf(mem@),
                forall|k: int| 0 <= k < i ==> !#[trigger] self.in_use(mem@, k, offset as int),
            decreases n - i,
        {
            assert(self.lists@[i as int].wf(mem@));
            if self.lists[i].has_in_use(mem, offset) {
                assert(self.in_use(mem@, i as int, offset as int));
                return true;
            }
            i = i + 1;
        }
        false
    }

    /// `q` are buffers in use from `o` on, each of which names the next one, and the last one names
    /// that at `next`.
    spec fn leads(self, m: Seq<u8>, o: int, q: Seq<int>, next: int) -> bool {
        &&& q.no_duplicates()
        &&& forall|i: int| 0 <= i < q.len() ==> self.is_allocated(m, #[trigger] q[i])
        &&& forall|i: int| 0 <= i < q.len() ==> Self::readable(m, #[trigger] q[i])
        &&& forall|i: int| 0 <= i < q.len() ==> Self::names_next(m, #[trigger] q[i])
        &&& forall|i: int, j: int|
            0 <= i < q.len() && j == i + 1 && j < q.len() ==> slice::header_next(
                m,
                #[trigger] q[i],
            ) == #[trigger] q[j]
        &&& if q.len() == 0 {
            next == o
        } else {
            q[0] == o && slice::header_next(m, q.last()) == next
        }
    }

    /// The buffers of the chain that starts at `offset`, if there is one: buffers in use, none
    /// twice, whose positions lie inside their capacities.
    pub fn find_chain(&self, mem: &[u8], offset: u32) -> (r: Option<Vec<u32>>)
        requires
            self.wf(mem@),
        ensures
            match r {
                Some(v) => {
                    &&& self.is_chain(mem@, positions(v@))
                    &&& positions(v@)[0] == offset
                    &&& self.chain_from(mem@, offset as int) == positions(v@)
                },
                None => forall|q: Seq<int>| #[trigger]
                    self.is_chain(mem@, q) ==> q[0] != offset,
            },
    {
        let ghost m = mem@;
        let ghost p = self.chain_from(m, offset as int);
        let ghost there = self.is_chain(m, p) && p[0] == offset;
        let mut v: Vec<u32> = Vec::new();
        let mut cur: u32 = offset;
        assert(positions(v@) =~= Seq::<int>::empty());
        loop
            invariant
                self.wf(m),
                m == mem@,
                p == self.chain_from(m, offset as int),
                there == (self.is_chain(m, p) && p[0] == offset),
                self.leads(m, offset as int, positions(v@), cur as int),
                there ==> {
                    &&& v@.len() < p.len()
                    &&& p[v@.len() as int] == cur
                    &&& forall|j: int| 0 <= j < v@.len() ==> p[j] == #[trigger] positions(v@)[j]
                },
            decreases m.len() - v@.len(),
        {
            let ghost q = positions(v@);
            let ghost n = q.len() as int;
            if !self.is_in_use(mem, cur) {
                assert(!there) by {
                    if there {
                        assert(self.is_allocated(m, p[n]));
                    }
                }
                return None;
            }
            if is_among(&v, cur) {
                assert(!there) by {
                    if there {
                        let j = choose|j: int| 0 <= j < q.len() && q[j] == cur;
                        assert(p[j] == q[j]);
                        assert(p[j] == p[n]);
                    }
                }
                return None;
            }
            let ghost k = choose|k: int| self.in_use(m, k, cur as int);
            proof {
                self.lemma_in_use(m, k, cur as int);
            }
            let header = BufferHeader(cur as usize);
            if header.start(mem) as u64 + header.size(mem) as u64 > header.cap(mem) as u64 {
                assert(!there) by {
                    if there {
                        assert(Self::readable(m, p[n]));
                    }
                }
                return None;
            }
            let has_next: bool = header.has_next(mem);
            let next: u32 = header.next_buffer_offset(mem);
            v.push(cur);
            proof {
                let w = positions(v@);
                assert(w =~= q.push(cur as int));
                assert(w.no_duplicates());
                assert forall|i: int, j: int|
                    0 <= i < w.len() && j == i + 1 && j < w.len() implies slice::header_next(
                    m,
                    #[trigger] w[i],
                ) == #[trigger] w[j] by {
                    if j < n {
                        assert(slice::header_next(m, q[i]) == q[j]);
                    } else {
                        assert(q.last() == q[i]);
                    }
                }
                assert forall|i: int| 0 <= i < w.len() implies 0 <= #[trigger] w[i] < m.len() by {
                    assert(self.is_allocated(m, w[i]));
                    let k = choose|k: int| self.in_use(m, k, w[i]);
                    self.lemma_in_use(m, k, w[i]);
                }
                lemma_positions_len(w, m.len() as int);
            }
            if !has_next || next as u64 + BUFFER_HEADER_SIZE as u64 >= mem.len() as u64 {
                proof {
                    let w = positions(v@);
                    assert forall|i: int| 0 <= i < n implies Self::names_next(
                        m,
                        #[trigger] w[i],
                    ) by {
                        assert(Self::names_next(m, q[i]));
                    }
                    assert(w.last() == cur);
                    assert(self.is_chain(m, w));
                    self.lemma_chain_unique(m, w);
                }
                return Some(v);
            }
            proof {
                let w = positions(v@);
                assert(w.last() == cur);
                assert forall|i: int| 0 <= i < w.len() implies Self::names_next(
                    m,
                    #[trigger] w[i],
                ) by {
                    if i < n {
                        assert(Self::names_next(m, q[i]));
                    }
                }
                if there {
                    if p.len() == n + 1 {
                        assert(p.last() == p[n]);
                    } else {
                        assert(slice::header_next(m, p[n]) == p[n + 1]);
                    }
                    assert forall|j: int| 0 <= j < v@.len() implies p[j] == #[trigger] w[j] by {
                        if j < n {
                            assert(p[j] == q[j]);
                        }
                    }
                }
            }
            cur = next;
        }
    }
}

} // verus!
