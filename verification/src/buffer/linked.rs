//! Linked buffers: the bytes of one stream over several buffers.

use vstd::prelude::*;

use crate::buffer::buf::{Buf, ShmBuf};
use crate::buffer::manager;
use crate::buffer::manager::{
    BufferManager, BUFFER_FLAG_OFFSET, BUFFER_HEADER_SIZE, SLICE_IN_USED_FLAG,
};
use crate::buffer::placement;
use crate::buffer::slice;
use crate::buffer::slice::{BufferSlice, SliceData, SliceList};
use crate::buffer::taking;
use crate::consts::DEFAULT_SINGLE_BUFFER_SIZE;
use crate::error::Error;
use crate::mem;
use crate::outside;

verus! {

/// Slice `i` of `ss` is the buffer of the region at `o`.
pub open spec fn cell_at(ss: Seq<BufferSlice>, i: int, o: int) -> bool {
    &&& 0 <= i < ss.len()
    &&& ss[i].is_from_shm
    &&& ss[i].offset_in_shm == o
}

/// The buffers of the region among `ss`.
pub open spec fn cells(ss: Seq<BufferSlice>) -> Set<int> {
    Set::new(|o: int| exists|i: int| #[trigger] cell_at(ss, i, o))
}

/// The buffer at `o` is in use, and neither among `ss` nor among `tt`.
pub open spec fn is_elsewhere(
    bm: BufferManager,
    m: Seq<u8>,
    ss: Seq<BufferSlice>,
    tt: Seq<BufferSlice>,
    o: int,
) -> bool {
    &&& bm.is_allocated(m, o)
    &&& !cells(ss).contains(o)
    &&& !cells(tt).contains(o)
}

/// Each of the first `k` buffers of `q` is among `ss`, or not in use.
pub open spec fn all_taken(
    bm: BufferManager,
    m: Seq<u8>,
    ss: Seq<BufferSlice>,
    q: Seq<int>,
    k: int,
) -> bool {
    forall|i: int|
        0 <= i < k ==> cells(ss).contains(#[trigger] q[i]) || !bm.is_allocated(m, q[i])
}

/// Every slice of `ss` is well-formed and in use, and no two are the same buffer.
pub open spec fn owns_all(bm: BufferManager, m: Seq<u8>, ss: Seq<BufferSlice>) -> bool {
    &&& forall|i: int| 0 <= i < ss.len() ==> bm.owns(m, #[trigger] ss[i])
    &&& forall|i: int| 0 <= i < ss.len() ==> (#[trigger] ss[i]).wf(m)
    &&& forall|i: int, j: int|
        0 <= i < j < ss.len() && (#[trigger] ss[i]).is_from_shm && (#[trigger] ss[j]).is_from_shm
            ==> ss[i].offset_in_shm != ss[j].offset_in_shm
}

/// The slices over those buffers of a chain that have something in them.
pub open spec fn filled_of(m: Seq<u8>, q: Seq<int>) -> Seq<BufferSlice>
    decreases q.len(),
{
    if q.len() == 0 {
        Seq::empty()
    } else {
        let s = BufferManager::slice_at(m, q.last());
        let ss = filled_of(m, q.drop_last());
        if s.read_index < s.write_index {
            ss.push(s)
        } else {
            ss
        }
    }
}

/// The slices over those buffers of a chain that have nothing in them.
pub open spec fn unused_of(m: Seq<u8>, q: Seq<int>) -> Seq<BufferSlice>
    decreases q.len(),
{
    if q.len() == 0 {
        Seq::empty()
    } else {
        let s = BufferManager::slice_at(m, q.last());
        let ss = unused_of(m, q.drop_last());
        if s.read_index < s.write_index {
            ss
        } else {
            ss.push(s)
        }
    }
}

/// The unread bytes of the slices, one after the other.
pub open spec fn content(ss: Seq<BufferSlice>, m: Seq<u8>) -> Seq<u8>
    decreases ss.len(),
{
    if ss.len() == 0 {
        Seq::empty()
    } else {
        content(ss.drop_last(), m) + ss.last().unread(m)
    }
}

/// From slice `w` on, nothing is to be read.
pub open spec fn empty_from(ss: Seq<BufferSlice>, w: int) -> bool {
    forall|j: int|
        w <= j < ss.len() ==> (#[trigger] ss[j]).read_index == ss[j].write_index
}

/// Slices with the same unread bytes have the same content.
pub proof fn lemma_content_same(
    ss: Seq<BufferSlice>,
    m: Seq<u8>,
    tt: Seq<BufferSlice>,
    n: Seq<u8>,
)
    requires
        ss.len() == tt.len(),
        forall|i: int| 0 <= i < ss.len() ==> (#[trigger] ss[i]).unread(m) == tt[i].unread(n),
    ensures
        content(ss, m) == content(tt, n),
    decreases ss.len(),
{
    if ss.len() > 0 {
        assert forall|i: int| 0 <= i < ss.drop_last().len() implies (
        #[trigger] ss.drop_last()[i]).unread(m) == tt.drop_last()[i].unread(n) by {
            assert(ss.drop_last()[i] == ss[i]);
        }
        lemma_content_same(ss.drop_last(), m, tt.drop_last(), n);
        assert(ss[ss.len() - 1].unread(m) == tt[ss.len() - 1].unread(n));
    }
}

/// The content of two runs of slices is the content of the first and then that of the second.
pub proof fn lemma_content_add(ss: Seq<BufferSlice>, tt: Seq<BufferSlice>, m: Seq<u8>)
    ensures
        content(ss + tt, m) == content(ss, m) + content(tt, m),
    decreases tt.len(),
{
    if tt.len() == 0 {
        assert(ss + tt =~= ss);
        assert(content(ss, m) + Seq::<u8>::empty() =~= content(ss, m));
    } else {
        assert((ss + tt).drop_last() =~= ss + tt.drop_last());
        assert((ss + tt).last() == tt.last());
        lemma_content_add(ss, tt.drop_last(), m);
        assert(content(ss, m) + content(tt.drop_last(), m) + tt.last().unread(m) =~= content(ss, m)
            + (content(tt.drop_last(), m) + tt.last().unread(m)));
    }
}

/// The end of a sequence is replaced where that of its last part is.
proof fn lemma_tail_replaced(a: Seq<u8>, b: Seq<u8>, c: Seq<u8>, d: Seq<u8>)
    requires
        d.len() <= b.len(),
        c == b.take(b.len() - d.len()) + d,
    ensures
        a + c == (a + b).take((a + b).len() - d.len()) + d,
{
    assert(a + c =~= (a + b).take((a + b).len() - d.len()) + d);
}

pub proof fn lemma_content_one(s: BufferSlice, m: Seq<u8>)
    ensures
        content(seq![s], m) == s.unread(m),
{
    reveal_with_fuel(content, 2);
    assert(seq![s].drop_last() =~= Seq::<BufferSlice>::empty());
    assert(Seq::<u8>::empty() + s.unread(m) =~= s.unread(m));
}

/// The content starts with that of the first slice.
pub proof fn lemma_content_front(ss: Seq<BufferSlice>, m: Seq<u8>)
    requires
        ss.len() > 0,
    ensures
        content(ss, m) == ss[0].unread(m) + content(ss.skip(1), m),
{
    assert(ss =~= seq![ss[0]] + ss.skip(1));
    lemma_content_add(seq![ss[0]], ss.skip(1), m);
    lemma_content_one(ss[0], m);
}

pub proof fn lemma_content_push(ss: Seq<BufferSlice>, s: BufferSlice, m: Seq<u8>)
    ensures
        content(ss.push(s), m) == content(ss, m) + s.unread(m),
{
    assert(ss.push(s).drop_last() =~= ss);
}

/// Slices with nothing to read have no content.
pub proof fn lemma_content_empty(ss: Seq<BufferSlice>, m: Seq<u8>)
    requires
        empty_from(ss, 0),
        forall|i: int| 0 <= i < ss.len() ==> (#[trigger] ss[i]).wf(m),
    ensures
        content(ss, m) == Seq::<u8>::empty(),
    decreases ss.len(),
{
    if ss.len() > 0 {
        let t = ss.drop_last();
        assert forall|i: int| 0 <= i < t.len() implies (#[trigger] t[i]).wf(m) && t[i].read_index
            == t[i].write_index by {
            assert(t[i] == ss[i]);
        }
        lemma_content_empty(t, m);
        assert(ss[ss.len() - 1].wf(m));
        assert(ss.last().unread(m) =~= Seq::<u8>::empty());
    }
}

/// Each slice's share is no longer than the whole.
pub proof fn lemma_content_len(ss: Seq<BufferSlice>, m: Seq<u8>, i: int)
    requires
        0 <= i < ss.len(),
    ensures
        content(ss, m).len() >= ss[i].unread(m).len(),
        content(ss, m).len() == content(ss.take(i), m).len() + ss[i].unread(m).len() + content(
            ss.skip(i + 1),
            m,
        ).len(),
{
    assert(ss =~= ss.take(i) + (seq![ss[i]] + ss.skip(i + 1)));
    lemma_content_add(ss.take(i), seq![ss[i]] + ss.skip(i + 1), m);
    lemma_content_add(seq![ss[i]], ss.skip(i + 1), m);
    lemma_content_one(ss[i], m);
}

/// Slices of which no buffer changes keep buffers and bytes.
pub proof fn lemma_owns_all_kept(
    bm: BufferManager,
    a: Seq<u8>,
    b: Seq<u8>,
    own: Set<int>,
    ss: Seq<BufferSlice>,
)
    requires
        bm.wf(a),
        bm.keeps(a, b, own),
        owns_all(bm, a, ss),
        cells(ss).disjoint(own),
    ensures
        owns_all(bm, b, ss),
        content(ss, b) == content(ss, a),
        forall|i: int| 0 <= i < ss.len() ==> (#[trigger] ss[i]).bytes(b) == ss[i].bytes(a),
        forall|i: int| 0 <= i < ss.len() ==> (#[trigger] ss[i]).unread(b) == ss[i].unread(a),
{
    assert forall|i: int| 0 <= i < ss.len() implies {
        &&& bm.owns(b, #[trigger] ss[i])
        &&& ss[i].wf(b)
        &&& ss[i].bytes(b) == ss[i].bytes(a)
        &&& ss[i].unread(b) == ss[i].unread(a)
    } by {
        assert(bm.owns(a, ss[i]) && ss[i].wf(a));
        if ss[i].is_from_shm {
            assert(cell_at(ss, i, ss[i].offset_in_shm as int));
            assert(cells(ss).contains(ss[i].offset_in_shm as int));
        }
        bm.lemma_keeps_slice(a, b, own, ss[i]);
    }
    lemma_content_same(ss, b, ss, a);
}

/// Slices in use are what the manager calls allocated.
pub proof fn lemma_cells_allocated(bm: BufferManager, m: Seq<u8>, ss: Seq<BufferSlice>, o: int)
    requires
        owns_all(bm, m, ss),
        cells(ss).contains(o),
    ensures
        bm.is_allocated(m, o),
{
    let i = choose|i: int| #[trigger] cell_at(ss, i, o);
    assert(bm.owns(m, ss[i]));
}

/// The first slice apart from the others.
pub proof fn lemma_cells_front(ss: Seq<BufferSlice>)
    requires
        ss.len() > 0,
    ensures
        forall|o: int|
            #![trigger cells(ss).contains(o)]
            #![trigger cells(ss.skip(1)).contains(o)]
            cells(ss).contains(o) <==> cells(ss.skip(1)).contains(o) || (ss[0].is_from_shm
                && ss[0].offset_in_shm == o),
{
    assert forall|o: int|
        #![trigger cells(ss).contains(o)]
        #![trigger cells(ss.skip(1)).contains(o)]
        cells(ss).contains(o) <==> cells(ss.skip(1)).contains(o) || (ss[0].is_from_shm
            && ss[0].offset_in_shm == o) by {
        if cells(ss).contains(o) {
            let i = choose|i: int| #[trigger] cell_at(ss, i, o);
            if i > 0 {
                assert(cell_at(ss.skip(1), i - 1, o));
            }
        }
        if cells(ss.skip(1)).contains(o) {
            let i = choose|i: int| #[trigger] cell_at(ss.skip(1), i, o);
            assert(cell_at(ss, i + 1, o));
        }
        if ss[0].is_from_shm && ss[0].offset_in_shm == o {
            assert(cell_at(ss, 0, o));
        }
    }
}

/// The last slice apart from the others.
pub proof fn lemma_cells_push(ss: Seq<BufferSlice>, s: BufferSlice)
    ensures
        forall|o: int|
            #![trigger cells(ss.push(s)).contains(o)]
            #![trigger cells(ss).contains(o)]
            cells(ss.push(s)).contains(o) <==> cells(ss).contains(o) || (s.is_from_shm
                && s.offset_in_shm == o),
{
    let tt = ss.push(s);
    assert forall|o: int|
        #![trigger cells(tt).contains(o)]
        #![trigger cells(ss).contains(o)]
        cells(tt).contains(o) <==> cells(ss).contains(o) || (s.is_from_shm && s.offset_in_shm
            == o) by {
        if cells(tt).contains(o) {
            let i = choose|i: int| #[trigger] cell_at(tt, i, o);
            if i < ss.len() {
                assert(cell_at(ss, i, o));
            }
        }
        if cells(ss).contains(o) {
            let i = choose|i: int| #[trigger] cell_at(ss, i, o);
            assert(cell_at(tt, i, o));
        }
        if s.is_from_shm && s.offset_in_shm == o {
            assert(cell_at(tt, ss.len() as int, o));
        }
    }
}

/// Slices that stand for the same buffers.
pub proof fn lemma_cells_same(ss: Seq<BufferSlice>, tt: Seq<BufferSlice>)
    requires
        ss.len() == tt.len(),
        forall|i: int|
            0 <= i < ss.len() ==> (#[trigger] ss[i]).is_from_shm == tt[i].is_from_shm
                && ss[i].offset_in_shm == tt[i].offset_in_shm,
    ensures
        cells(ss) == cells(tt),
{
    assert forall|o: int| cells(ss).contains(o) == cells(tt).contains(o) by {
        if cells(ss).contains(o) {
            let i = choose|i: int| #[trigger] cell_at(ss, i, o);
            assert(cell_at(tt, i, o));
        }
        if cells(tt).contains(o) {
            let i = choose|i: int| #[trigger] cell_at(tt, i, o);
            assert(cell_at(ss, i, o));
        }
    }
    assert(cells(ss) =~= cells(tt));
}

/// A pin on a slice that was read in place. Whoever holds it gives it back to the registry.
#[derive(Debug, PartialEq, Eq)]
pub struct PinLease {
    id: usize,
}

/// A slice that left its buffer while pins on it were out.
#[derive(Debug)]
pub struct RetiredSlice {
    id: usize,
    slice: BufferSlice,
}

/// Tracks the pins on slices, and owns slices that were given up until their last pin is back.
#[derive(Debug)]
pub struct PinRegistry {
    /// How many pins are out, for each slice that was ever pinned.
    leases: Vec<usize>,
    /// Which of these is the first slice of the buffer.
    front: Option<usize>,
    retired: Vec<RetiredSlice>,
}

impl PinLease {
    pub closed spec fn id(self) -> int {
        self.id as int
    }
}

impl PinRegistry {
    /// How many pins are out, for each slice that was ever pinned.
    pub closed spec fn leases(self) -> Seq<usize> {
        self.leases@
    }

    /// Which of these is the first slice of the buffer.
    pub closed spec fn front(self) -> Option<int> {
        match self.front {
            Some(f) => Some(f as int),
            None => None,
        }
    }

    /// The slices that wait for their last pin.
    pub closed spec fn retired(self) -> Seq<BufferSlice> {
        self.retired@.map_values(|r: RetiredSlice| r.slice)
    }

    /// Which pins the slices that wait are waiting for.
    pub closed spec fn retired_ids(self) -> Seq<int> {
        self.retired@.map_values(|r: RetiredSlice| r.id as int)
    }

    pub open spec fn wf(self) -> bool {
        &&& self.front() matches Some(f) ==> 0 <= f < self.leases().len()
        &&& self.retired().len() == self.retired_ids().len()
        &&& self.retired_ids().no_duplicates()
        &&& forall|k: int|
            0 <= k < self.retired_ids().len() ==> {
                &&& 0 <= #[trigger] self.retired_ids()[k] < self.leases().len()
                &&& self.leases()[self.retired_ids()[k]] > 0
                &&& self.front() != Some(self.retired_ids()[k])
            }
    }

    /// A pin on the first slice is out.
    pub open spec fn front_pinned(self) -> bool {
        self.front() matches Some(f) && self.leases()[f] > 0
    }

    pub fn new() -> (r: Self)
        ensures
            r.wf(),
            r.front() is None,
            r.leases().len() == 0,
            r.retired().len() == 0,
    {
        PinRegistry { leases: Vec::new(), front: None, retired: Vec::new() }
    }

    /// Whether any slice that is still in the buffer has been pinned.
    pub fn has_slot(&self) -> (r: bool)
        ensures
            r == self.front() is Some,
    {
        self.front.is_some()
    }

    /// How many slices wait for their last pin.
    pub fn retired_len(&self) -> (r: usize)
        ensures
            r == self.retired().len(),
    {
        self.retired.len()
    }

    /// Pins the first slice once more.
    pub fn acquire(&mut self) -> (lease: PinLease)
        requires
            old(self).wf(),
            old(self).front() matches Some(f) ==> old(self).leases()[f] < usize::MAX,
        ensures
            final(self).wf(),
            final(self).front() == Some(lease.id()),
            final(self).retired() == old(self).retired(),
            final(self).retired_ids() == old(self).retired_ids(),
            taking::pinned(
                old(self).front(),
                old(self).leases(),
                *final(self),
                lease.id(),
                1,
            ),
    {
        match self.front {
            Some(f) => {
                let n: usize = self.leases[f];
                self.leases.set(f, n + 1);
                PinLease { id: f }
            },
            None => {
                let n: usize = self.leases.len();
                let mut i: usize = 0;
                while i < n && self.leases[i] > 0
                    invariant
                        n == self.leases@.len(),
                        0 <= i <= n,
                        *self == *old(self),
                    decreases n - i,
                {
                    i += 1;
                }
                if i < n {
                    self.leases.set(i, 1);
                } else {
                    self.leases.push(1);
                }
                self.front = Some(i);
                PinLease { id: i }
            },
        }
    }

    /// Whether a pin on the first slice is out.
    pub fn is_pinned(&self) -> (r: bool)
        requires
            self.wf(),
        ensures
            r == self.front_pinned(),
    {
        match self.front {
            Some(f) => self.leases[f] > 0,
            None => false,
        }
    }

    /// Takes over the slice that was the first. It goes back at once if no pin on it is out.
    pub fn retire(&mut self, bm: &BufferManager, mem: &mut [u8], slice: BufferSlice)
        requires
            old(self).wf(),
            bm.wf(old(mem)@),
            bm.owns(old(mem)@, slice),
        ensures
            final(self).wf(),
            bm.wf(final(mem)@),
            final(mem)@.len() == old(mem)@.len(),
            final(self).front() is None,
            final(self).leases() == old(self).leases(),
            if old(self).front_pinned() {
                &&& final(mem)@ == old(mem)@
                &&& final(self).retired() == old(self).retired().push(slice)
                &&& final(self).retired_ids() == old(self).retired_ids().push(
                    old(self).front()->0,
                )
            } else {
                &&& final(self).retired() == old(self).retired()
                &&& final(self).retired_ids() == old(self).retired_ids()
                &&& if slice.is_from_shm {
                    bm.gives_back(
                        old(mem)@,
                        final(mem)@,
                        slice.offset_in_shm as int,
                    )
                } else {
                    final(mem)@ == old(mem)@
                }
            },
    {
        let pinned: bool = self.is_pinned();
        let front = self.front;
        self.front = None;
        match front {
            Some(f) => {
                if pinned {
                    self.retired.push(RetiredSlice { id: f, slice });
                    assert(self.retired() =~= old(self).retired().push(slice));
                    assert(self.retired_ids() =~= old(self).retired_ids().push(f as int));
                } else {
                    bm.recycle_buffer(mem, slice);
                }
            },
            None => {
                bm.recycle_buffer(mem, slice);
            },
        }
    }

    /// Forgets the pins on the slice that was the first, of which none is out.
    pub fn abandon(&mut self)
        requires
            old(self).wf(),
            !old(self).front_pinned(),
        ensures
            final(self).wf(),
            final(self).front() is None,
            final(self).leases() == old(self).leases(),
            final(self).retired() == old(self).retired(),
            final(self).retired_ids() == old(self).retired_ids(),
    {
        self.front = None;
    }

    /// Takes a pin on the first slice back.
    fn unpin(&mut self, lease: PinLease)
        requires
            old(self).wf(),
            old(self).front() == Some(lease.id()),
            old(self).leases()[lease.id()] > 0,
        ensures
            final(self).wf(),
            final(self).front() == old(self).front(),
            final(self).leases() == old(self).leases().update(
                lease.id(),
                (old(self).leases()[lease.id()] - 1) as usize,
            ),
            final(self).retired() == old(self).retired(),
            final(self).retired_ids() == old(self).retired_ids(),
    {
        let n: usize = self.leases[lease.id];
        self.leases.set(lease.id, n - 1);
    }

    /// On the way from `self` in `a` to `next` in `b` a pin came back that went by the name `id`. If
    /// it was the last one on a slice that waits, the slice went back. Else nothing but the count
    /// changed.
    pub open spec fn unpinned(
        self,
        bm: BufferManager,
        a: Seq<u8>,
        next: Self,
        b: Seq<u8>,
        id: int,
    ) -> bool {
        &&& next.front() == self.front()
        &&& next.leases() == self.leases().update(id, (self.leases()[id] - 1) as usize)
        &&& if self.leases()[id] > 1 || !self.retired_ids().contains(id) {
            &&& b == a
            &&& next.retired() == self.retired()
            &&& next.retired_ids() == self.retired_ids()
        } else {
            let k = self.retired_ids().index_of(id);
            let s = self.retired()[k];
            &&& next.retired() == self.retired().remove(k)
            &&& next.retired_ids() == self.retired_ids().remove(k)
            &&& if s.is_from_shm {
                bm.gives_back(a, b, s.offset_in_shm as int)
            } else {
                b == a
            }
        }
    }

    /// Whether the buffer of the region at `o` waits for its pins.
    pub fn waits_at(&self, o: u32) -> (r: bool)
        ensures
            r == cells(self.retired()).contains(o as int),
    {
        let n: usize = self.retired.len();
        let mut i: usize = 0;
        while i < n
            invariant
                n == self.retired@.len(),
                0 <= i <= n,
                forall|j: int| 0 <= j < i ==> !#[trigger] cell_at(self.retired(), j, o as int),
            decreases n - i,
        {
            let s = &self.retired[i].slice;
            assert(self.retired()[i as int] == *s);
            if s.is_from_shm && s.offset_in_shm == o {
                assert(cell_at(self.retired(), i as int, o as int));
                return true;
            }
            i = i + 1;
        }
        false
    }

    /// Takes a pin back. If it was the last one on a slice that waits, the slice goes back.
    pub fn release(&mut self, bm: &BufferManager, mem: &mut [u8], lease: PinLease)
        requires
            old(self).wf(),
            0 <= lease.id() < old(self).leases().len(),
            old(self).leases()[lease.id()] > 0,
            bm.wf(old(mem)@),
            forall|k: int|
                0 <= k < old(self).retired().len() ==> bm.owns(
                    old(mem)@,
                    #[trigger] old(self).retired()[k],
                ),
        ensures
            final(self).wf(),
            bm.wf(final(mem)@),
            final(mem)@.len() == old(mem)@.len(),
            old(self).unpinned(*bm, old(mem)@, *final(self), final(mem)@, lease.id()),
    {
        let id: usize = lease.id;
        let n: usize = self.leases[id] - 1;
        self.leases.set(id, n);
        if n == 0 {
            let len: usize = self.retired.len();
            let mut k: usize = 0;
            while k < len && self.retired[k].id != id
                invariant
                    len == self.retired@.len(),
                    0 <= k <= len,
                    self.retired@ == old(self).retired@,
                    forall|i: int| 0 <= i < k ==> old(self).retired_ids()[i] != id,
                decreases len - k,
            {
                k += 1;
            }
            if k < len {
                proof {
                    assert(old(self).retired_ids()[k as int] == id);
                    assert(old(self).retired_ids().index_of(id as int) == k);
                    assert(old(self).retired()[k as int] == self.retired@[k as int].slice);
                }
                let r = self.retired.remove(k);
                bm.recycle_buffer(mem, r.slice);
                proof {
                    assert(self.retired() =~= old(self).retired().remove(k as int));
                    assert(self.retired_ids() =~= old(self).retired_ids().remove(k as int));
                    assert forall|i: int| 0 <= i < self.retired_ids().len() implies {
                        &&& 0 <= #[trigger] self.retired_ids()[i] < self.leases().len()
                        &&& self.leases()[self.retired_ids()[i]] > 0
                        &&& self.front() != Some(self.retired_ids()[i])
                    } by {
                        let j = if i < k {
                            i
                        } else {
                            i + 1
                        };
                        assert(self.retired_ids()[i] == old(self).retired_ids()[j]);
                        assert(old(self).retired_ids()[j] != old(self).retired_ids()[k as int]);
                    }
                }
            }
        }
    }
}

/// The bytes of one direction of a stream: what was written at the back is read at the front.
#[derive(Debug)]
pub struct LinkedBuffer {
    slice_list: SliceList,
    pin_registry: PinRegistry,
    end_stream: bool,
    is_from_shm: bool,
    len: usize,
}

impl LinkedBuffer {
    /// The slices from front to back.
    pub closed spec fn slices(self) -> Seq<BufferSlice> {
        self.slice_list@
    }

    /// The position of the slice that takes the next write.
    pub closed spec fn write_pos(self) -> Option<int> {
        self.slice_list.write_pos()
    }

    pub closed spec fn pins(self) -> PinRegistry {
        self.pin_registry
    }

    /// Whether every slice is a buffer of the region.
    pub closed spec fn from_shm(self) -> bool {
        self.is_from_shm
    }

    /// The number of unread bytes.
    pub closed spec fn spec_len(self) -> nat {
        self.len as nat
    }

    /// The unread bytes.
    pub open spec fn content(self, m: Seq<u8>) -> Seq<u8> {
        content(self.slices(), m)
    }

    /// The slices are in order: no two are the same buffer, none waits for a pin, and behind the
    /// one that takes the next write there is nothing to read.
    pub open spec fn wf_slices(self, bm: BufferManager, m: Seq<u8>) -> bool {
        &&& bm.wf(m)
        &&& owns_all(bm, m, self.slices())
        &&& self.pins().wf()
        &&& owns_all(bm, m, self.pins().retired())
        &&& cells(self.slices()).disjoint(cells(self.pins().retired()))
        &&& match self.write_pos() {
            Some(w) => 0 <= w < self.slices().len() && empty_from(self.slices(), w + 1),
            None => empty_from(self.slices(), 0),
        }
        &&& self.from_shm() ==> forall|i: int|
            0 <= i < self.slices().len() ==> (#[trigger] self.slices()[i]).is_from_shm
    }

    /// The slices are in order and the length is that of the content.
    pub open spec fn wf(self, bm: BufferManager, m: Seq<u8>) -> bool {
        &&& self.wf_slices(bm, m)
        &&& self.spec_len() == self.content(m).len()
    }

    /// On the way from `self` in `a` to `next` in `b` no buffer but those of `self` changed, and
    /// the buffers of `next` are those of `self` and such as were free. None is lost: one that is
    /// in use elsewhere was so before.
    pub open spec fn evolves(self, bm: BufferManager, a: Seq<u8>, next: Self, b: Seq<u8>) -> bool {
        &&& bm.keeps(a, b, cells(self.slices()))
        &&& forall|o: int| #[trigger]
            cells(next.slices()).contains(o) ==> cells(self.slices()).contains(o)
                || !bm.is_allocated(a, o)
        &&& forall|o: int| #[trigger]
            cells(next.pins().retired()).contains(o) ==> cells(self.pins().retired()).contains(o)
                || cells(self.slices()).contains(o) || !bm.is_allocated(a, o)
        &&& forall|o: int| #[trigger]
            is_elsewhere(bm, b, next.slices(), next.pins().retired(), o) ==> is_elsewhere(
                bm,
                a,
                self.slices(),
                self.pins().retired(),
                o,
            )
    }

    pub proof fn lemma_evolves_refl(self, bm: BufferManager, a: Seq<u8>)
        ensures
            self.evolves(bm, a, self, a),
    {
        reveal(BufferManager::keeps);
    }

    pub proof fn lemma_evolves_trans(
        self,
        bm: BufferManager,
        a: Seq<u8>,
        mid: Self,
        b: Seq<u8>,
        next: Self,
        c: Seq<u8>,
    )
        requires
            self.evolves(bm, a, mid, b),
            mid.evolves(bm, b, next, c),
        ensures
            self.evolves(bm, a, next, c),
    {
        let s0 = cells(self.slices());
        let s1 = cells(mid.slices());
        bm.lemma_keeps_trans(a, b, c, s0, s1);
        assert forall|o: int| #[trigger] cells(next.slices()).contains(o) implies s0.contains(o)
            || !bm.is_allocated(a, o) by {
            if !s1.contains(o) {
                assert(!bm.is_allocated(b, o));
                reveal(BufferManager::keeps);
            }
        }
        assert forall|o: int| #[trigger] cells(next.pins().retired()).contains(o) implies cells(
            self.pins().retired(),
        ).contains(o) || s0.contains(o) || !bm.is_allocated(a, o) by {
            if !cells(mid.pins().retired()).contains(o) && !s1.contains(o) {
                assert(!bm.is_allocated(b, o));
                reveal(BufferManager::keeps);
            }
        }
    }

    /// What one buffer does, another does not notice: one that shares no buffer of the region
    /// with it keeps its content, and still shares none.
    pub proof fn law_buffers_do_not_disturb(
        self,
        bm: BufferManager,
        a: Seq<u8>,
        next: Self,
        b: Seq<u8>,
        other: Self,
    )
        requires
            self.evolves(bm, a, next, b),
            bm.wf(b),
            other.wf(bm, a),
            cells(self.slices()).disjoint(cells(other.slices())),
            cells(self.slices()).disjoint(cells(other.pins().retired())),
            cells(self.pins().retired()).disjoint(cells(other.slices())),
            cells(self.pins().retired()).disjoint(cells(other.pins().retired())),
        ensures
            other.wf(bm, b),
            other.content(b) == other.content(a),
            cells(next.slices()).disjoint(cells(other.slices())),
            cells(next.slices()).disjoint(cells(other.pins().retired())),
            cells(next.pins().retired()).disjoint(cells(other.slices())),
            cells(next.pins().retired()).disjoint(cells(other.pins().retired())),
    {
        let own = cells(self.slices());
        assert(cells(other.slices()).disjoint(own));
        assert(cells(other.pins().retired()).disjoint(own));
        lemma_owns_all_kept(bm, a, b, own, other.slices());
        lemma_owns_all_kept(bm, a, b, own, other.pins().retired());
        assert forall|o: int| !(cells(next.slices()).contains(o) && cells(
            other.slices(),
        ).contains(o)) by {
            if cells(other.slices()).contains(o) {
                lemma_cells_allocated(bm, a, other.slices(), o);
            }
        }
        assert forall|o: int| !(cells(next.slices()).contains(o) && cells(
            other.pins().retired(),
        ).contains(o)) by {
            if cells(other.pins().retired()).contains(o) {
                lemma_cells_allocated(bm, a, other.pins().retired(), o);
            }
        }
        assert forall|o: int| !(cells(next.pins().retired()).contains(o) && cells(
            other.slices(),
        ).contains(o)) by {
            if cells(other.slices()).contains(o) {
                lemma_cells_allocated(bm, a, other.slices(), o);
            }
        }
        assert forall|o: int| !(cells(next.pins().retired()).contains(o) && cells(
            other.pins().retired(),
        ).contains(o)) by {
            if cells(other.pins().retired()).contains(o) {
                lemma_cells_allocated(bm, a, other.pins().retired(), o);
            }
        }
    }

    pub fn new() -> (r: Self)
        ensures
            r.slices() == Seq::<BufferSlice>::empty(),
            r.write_pos() is None,
            r.pins().wf(),
            r.pins().front() is None,
            r.pins().retired() == Seq::<BufferSlice>::empty(),
            r.from_shm(),
            r.spec_len() == 0,
            forall|bm: BufferManager, m: Seq<u8>| bm.wf(m) ==> #[trigger] r.wf(bm, m),
    {
        let r = LinkedBuffer {
            slice_list: SliceList::new(),
            pin_registry: PinRegistry::new(),
            end_stream: false,
            is_from_shm: true,
            len: 0,
        };
        proof {
            assert(r.pins().retired() =~= Seq::<BufferSlice>::empty());
            assert forall|o: int| !cells(Seq::<BufferSlice>::empty()).contains(o) by {
                if cells(Seq::<BufferSlice>::empty()).contains(o) {
                    let i = choose|i: int| #[trigger]
                        cell_at(Seq::<BufferSlice>::empty(), i, o);
                }
            }
        }
        r
    }

    pub fn len(&self) -> (r: usize)
        ensures
            r == self.spec_len(),
    {
        self.len
    }

    pub fn is_empty(&self) -> (r: bool)
        ensures
            r == (self.spec_len() == 0),
    {
        self.len == 0
    }

    pub fn is_from_share_memory(&self) -> (r: bool)
        ensures
            r == self.from_shm(),
    {
        self.is_from_shm
    }

    pub fn slice_list(&self) -> (r: &SliceList)
        ensures
            r@ == self.slices(),
            r.write_pos() == self.write_pos(),
    {
        &self.slice_list
    }

    /// The pins on slices of this buffer.
    pub fn pin_registry(&self) -> (r: &PinRegistry)
        ensures
            *r == self.pins(),
    {
        &self.pin_registry
    }

    /// Where the first slice stands in the region; zero if there is none.
    pub fn root_buf_offset(&self) -> (r: u32)
        ensures
            r == if self.slices().len() > 0 {
                self.slices()[0].offset_in_shm
            } else {
                0
            },
    {
        match self.slice_list.front() {
            Some(s) => s.offset_in_shm,
            None => 0,
        }
    }

    /// The capacities of the first `n` slices, added up.
    pub open spec fn cap_sum(self, n: int) -> int
        decreases n,
    {
        if n <= 0 {
            0
        } else {
            self.cap_sum(n - 1) + self.slices()[n - 1].cap
        }
    }

    proof fn lemma_cap_sum_mono(self, i: int, j: int)
        requires
            0 <= i <= j <= self.slices().len(),
        ensures
            0 <= self.cap_sum(i) <= self.cap_sum(j),
        decreases j,
    {
        if i < j {
            self.lemma_cap_sum_mono(i, j - 1);
        } else if i > 0 {
            self.lemma_cap_sum_mono(i - 1, i - 1);
        }
    }

    /// The capacities of all slices, added up.
    pub fn cap(&self) -> (r: usize)
        requires
            self.cap_sum(self.slices().len() as int) <= usize::MAX,
        ensures
            r == self.cap_sum(self.slices().len() as int),
    {
        let n: usize = self.slice_list.size();
        let mut sum: usize = 0;
        let mut i: usize = 0;
        while i < n
            invariant
                n == self.slices().len(),
                0 <= i <= n,
                sum == self.cap_sum(i as int),
                self.cap_sum(n as int) <= usize::MAX,
            decreases n - i,
        {
            proof {
                self.lemma_cap_sum_mono(i + 1, n as int);
            }
            sum = sum + self.slice_list.get(i).capacity();
            i += 1;
        }
        sum
    }

    /// The bytes that the region could not give for `size`; they come from the heap.
    pub open spec fn heap_need(bm: BufferManager, m: Seq<u8>, size: int) -> int {
        size - bm.taken_size(bm.plan(bm.frees(m), bm.lists@.len() - 1, 0, size))
    }

    /// The slices behind those of `old_self` are what comes of asking for `size` bytes, and have
    /// room for them.
    pub open spec fn was_supplied(
        self,
        bm: BufferManager,
        a: Seq<u8>,
        old_self: Self,
        b: Seq<u8>,
        size: int,
    ) -> bool {
        let new = self.slices().skip(old_self.slices().len() as int);
        &&& placement::supplied(bm, bm.frees(a), bm.frees(b), size, new)
        &&& self.from_shm() == (old_self.from_shm() && placement::heap_part(
            bm,
            bm.frees(a),
            size,
        ) <= 0)
        &&& placement::room(new) >= size
    }

    /// One buffer of the region was enough.
    proof fn lemma_supplied_one(
        old_self: Self,
        bm: BufferManager,
        a: Seq<u8>,
        new_self: Self,
        b: Seq<u8>,
        size: int,
    )
        requires
            bm.can_alloc(a, size),
            new_self.slices().len() == old_self.slices().len() + 1,
            new_self.slices().last().cap >= size,
            bm.hands_out(a, b, bm.first_fit(size, 0), new_self.slices().last()),
            new_self.from_shm() == old_self.from_shm(),
        ensures
            new_self.was_supplied(bm, a, old_self, b, size),
    {
        let f = bm.frees(a);
        let n = old_self.slices().len() as int;
        let new = new_self.slices().skip(n);
        let taken = placement::region_part(bm, f, size);
        assert(placement::one_fits(bm, f, size));
        assert(taken.drop_last() =~= Seq::empty());
        assert(BufferManager::without(f, taken.drop_last()) == f);
        assert(new.len() == 1 && new[0] == new_self.slices().last());
        placement::lemma_supplied_room(bm, f, bm.frees(b), size, new);
    }

    /// Several buffers of the region were taken, and what is missing comes from the heap.
    proof fn lemma_supplied_some(
        old_self: Self,
        bm: BufferManager,
        a: Seq<u8>,
        new_self: Self,
        b: Seq<u8>,
        size: int,
    )
        requires
            !bm.can_alloc(a, size),
            ({
                let n = old_self.slices().len() as int;
                let ss = new_self.slices();
                let need = Self::heap_need(bm, a, size);
                let taken = bm.plan(bm.frees(a), bm.lists@.len() - 1, 0, size);
                &&& bm.frees(b) == BufferManager::without(bm.frees(a), taken)
                &&& forall|k: int|
                    0 <= k < taken.len() ==> bm.is_taken(taken[k], #[trigger] ss[n + k])
                &&& forall|i: int| n <= i < ss.len() ==> (#[trigger] ss[i]).is_fresh()
                &&& if need > 0 {
                    &&& ss.len() == n + taken.len() + 1
                    &&& !new_self.from_shm()
                    &&& !ss.last().is_from_shm
                    &&& ss.last().cap == if need < DEFAULT_SINGLE_BUFFER_SIZE {
                        DEFAULT_SINGLE_BUFFER_SIZE as int
                    } else {
                        need
                    }
                } else {
                    &&& ss.len() == n + taken.len()
                    &&& new_self.from_shm() == old_self.from_shm()
                }
            }),
        ensures
            new_self.was_supplied(bm, a, old_self, b, size),
    {
        let f = bm.frees(a);
        let n = old_self.slices().len() as int;
        let ss = new_self.slices();
        let new = ss.skip(n);
        let taken = placement::region_part(bm, f, size);
        assert(!placement::one_fits(bm, f, size));
        assert forall|k: int| 0 <= k < taken.len() implies placement::is_at(
            bm,
            taken[k],
            #[trigger] new[k],
        ) by {
            assert(new[k] == ss[n + k]);
        }
        assert forall|k: int| 0 <= k < new.len() implies (#[trigger] new[k]).is_fresh() by {
            assert(new[k] == ss[n + k]);
        }
        placement::lemma_supplied_room(bm, f, bm.frees(b), size, new);
    }

    /// Appends slices that hold at least `size` bytes: one buffer of the region if there is one
    /// that is large enough, else several, else what is left from the heap.
    pub fn alloc_slices(&mut self, bm: &BufferManager, mem: &mut [u8], size: u32)
        requires
            old(self).wf_slices(*bm, old(mem)@),
        ensures
            final(self).wf_slices(*bm, final(mem)@),
            final(mem)@.len() == old(mem)@.len(),
            old(self).evolves(*bm, old(mem)@, *final(self), final(mem)@),
            final(self).content(final(mem)@) == old(self).content(old(mem)@),
            old(self).same_bytes(old(mem)@, final(mem)@),
            old(self).sendable(old(mem)@) ==> final(self).sendable(final(mem)@),
            final(self).write_pos() == old(self).write_pos(),
            final(self).pins() == old(self).pins(),
            final(self).spec_len() == old(self).spec_len(),
            ({
                let n = old(self).slices().len() as int;
                let ss = final(self).slices();
                let need = Self::heap_need(*bm, old(mem)@, size as int);
                &&& ss.len() >= n
                &&& ss.take(n) == old(self).slices()
                &&& size > 0 ==> ss.len() > n
                &&& forall|i: int|
                    n <= i < ss.len() ==> (#[trigger] ss[i]).is_fresh() && ss[i].cap > 0
                &&& forall|i: int|
                    n <= i < ss.len() && (#[trigger] ss[i]).is_from_shm ==> bm.is_new(
                        old(mem)@,
                        final(mem)@,
                        ss[i],
                    )
                &&& if bm.can_alloc(old(mem)@, size as int) {
                    &&& ss.len() == n + 1
                    &&& bm.hands_out(
                        old(mem)@,
                        final(mem)@,
                        bm.first_fit(size as int, 0),
                        ss[n],
                    )
                    &&& final(self).from_shm() == old(self).from_shm()
                } else {
                    let taken = bm.plan(bm.frees(old(mem)@), bm.lists@.len() - 1, 0, size as int);
                    &&& bm.frees(final(mem)@) == BufferManager::without(
                        bm.frees(old(mem)@),
                        taken,
                    )
                    &&& bm.counters(final(mem)@) == BufferManager::counted_out(
                        bm.counters(old(mem)@),
                        taken,
                    )
                    &&& forall|k: int|
                        0 <= k < taken.len() ==> bm.is_taken(taken[k], #[trigger] ss[n + k])
                    &&& if need > 0 {
                        &&& ss.len() == n + taken.len() + 1
                        &&& !final(self).from_shm()
                        &&& !ss.last().is_from_shm
                        &&& ss.last().cap == if need < DEFAULT_SINGLE_BUFFER_SIZE {
                            DEFAULT_SINGLE_BUFFER_SIZE as int
                        } else {
                            need
                        }
                    } else {
                        &&& ss.len() == n + taken.len()
                        &&& final(self).from_shm() == old(self).from_shm()
                    }
                }
            }),
            final(self).was_supplied(*bm, old(mem)@, *old(self), final(mem)@, size as int),
            bm.in_balance(old(mem)@) ==> bm.in_balance(final(mem)@),
    {
        let ghost m0 = mem@;
        let ghost s0 = *self;
        let ghost ss0 = self.slices();
        let ghost n = ss0.len() as int;
        match bm.alloc_shm_buffer(mem, size) {
            Ok(buf) => {
                let ghost b = buf;
                self.slice_list.push_back(buf);
                proof {
                    if bm.in_balance(m0) {
                        bm.law_counts_follow_taking(m0, mem@, bm.first_fit(size as int, 0), b);
                    }
                    assert(self.slices().take(n) =~= ss0);
                    Self::lemma_one_more(s0, *bm, m0, *self, mem@, bm.first_fit(size as int, 0));
                    Self::lemma_extended(s0, *bm, m0, *self, mem@);
                    Self::lemma_sendable_extended(s0, *bm, m0, *self, mem@);
                    Self::lemma_supplied_one(s0, *bm, m0, *self, mem@, size as int);
                }
                return;
            },
            Err(_) => {},
        }
        let alloc_size: i64 = bm.alloc_shm_buffers(mem, &mut self.slice_list, size);
        let ghost ss1 = self.slices();
        let remain: i64 = size as i64 - alloc_size;
        if remain > 0 {
            let heap: i64 = if remain < DEFAULT_SINGLE_BUFFER_SIZE {
                DEFAULT_SINGLE_BUFFER_SIZE
            } else {
                remain
            };
            proof {
                Self::lemma_taken_size(
                    *bm,
                    bm.plan(bm.frees(m0), bm.lists@.len() - 1, 0, size as int),
                );
            }
            let v: Vec<u8> = vec![0u8; heap as usize];
            self.slice_list.push_back(BufferSlice::new_heap(v));
            self.is_from_shm = false;
            proof {
                assert(self.slices().take(n) =~= ss1.take(n));
            }
        }
        proof {
            assert(ss1.take(n) == ss0);
            assert(forall|i: int| 0 <= i < n ==> self.slices()[i] == ss1.take(n)[i]);
            assert(self.slices().take(n) =~= ss0);
            assert forall|o: int| #[trigger] bm.is_allocated(mem@, o) implies bm.is_allocated(m0, o)
                || manager::is_one_of(self.slices(), n, o) by {
                if !bm.is_allocated(m0, o) {
                    let i = choose|i: int|
                        n <= i < ss1.len() && (#[trigger] ss1[i]).is_from_shm
                            && ss1[i].offset_in_shm == o;
                    assert(self.slices()[i] == ss1[i]);
                }
            }
            Self::lemma_extended(s0, *bm, m0, *self, mem@);
            Self::lemma_sendable_extended(s0, *bm, m0, *self, mem@);
            let taken = bm.plan(bm.frees(m0), bm.lists@.len() - 1, 0, size as int);
            assert forall|k: int| 0 <= k < taken.len() implies bm.is_taken(
                taken[k],
                #[trigger] self.slices()[n + k],
            ) by {
                assert(self.slices()[n + k] == ss1[n + k]);
            }
            if size > 0 && remain <= 0 {
                reveal_with_fuel(BufferManager::taken_size, 1);
                assert(taken.len() > 0);
            }
            Self::lemma_supplied_some(s0, *bm, m0, *self, mem@, size as int);
        }
    }

    proof fn lemma_taken_size(bm: BufferManager, taken: Seq<(int, int)>)
        ensures
            bm.taken_size(taken) >= 0,
        decreases taken.len(),
    {
        if taken.len() > 0 {
            Self::lemma_taken_size(bm, taken.drop_last());
        }
    }

    /// A buffer that was handed out is the last slice; no other was put in use.
    proof fn lemma_one_more(
        old_self: Self,
        bm: BufferManager,
        a: Seq<u8>,
        new_self: Self,
        b: Seq<u8>,
        k: int,
    )
        requires
            new_self.slices().len() == old_self.slices().len() + 1,
            bm.hands_out(a, b, k, new_self.slices().last()),
        ensures
            forall|o: int| #[trigger]
                bm.is_allocated(b, o) ==> bm.is_allocated(a, o) || manager::is_one_of(
                    new_self.slices(),
                    old_self.slices().len() as int,
                    o,
                ),
    {
        let s = new_self.slices().last();
        assert forall|o: int| #[trigger] bm.is_allocated(b, o) implies bm.is_allocated(a, o)
            || manager::is_one_of(new_self.slices(), old_self.slices().len() as int, o) by {
            bm.lemma_allocated_out(a, b, k, s, o);
            assert(new_self.slices()[old_self.slices().len() as int] == s);
        }
    }

    /// New slices at the back change nothing of what there is.
    proof fn lemma_extended(
        old_self: Self,
        bm: BufferManager,
        a: Seq<u8>,
        new_self: Self,
        b: Seq<u8>,
    )
        requires
            old_self.wf_slices(bm, a),
            bm.wf(b),
            bm.keeps(a, b, Set::empty()),
            new_self.pins() == old_self.pins(),
            new_self.write_pos() == old_self.write_pos(),
            ({
                let n = old_self.slices().len() as int;
                let ss = new_self.slices();
                &&& n <= ss.len()
                &&& ss.take(n) == old_self.slices()
                &&& forall|i: int| n <= i < ss.len() ==> (#[trigger] ss[i]).is_fresh()
                &&& forall|i: int|
                    n <= i < ss.len() && (#[trigger] ss[i]).is_from_shm ==> bm.is_new(a, b, ss[i])
                &&& forall|i: int|
                    n <= i < ss.len() && !(#[trigger] ss[i]).is_from_shm ==> ss[i].wf(b)
                        && bm.owns(b, ss[i])
                &&& forall|i: int, j: int|
                    n <= i < j < ss.len() && (#[trigger] ss[i]).is_from_shm && (
                    #[trigger] ss[j]).is_from_shm ==> ss[i].offset_in_shm != ss[j].offset_in_shm
                &&& new_self.from_shm() ==> old_self.from_shm() && forall|i: int|
                    n <= i < ss.len() ==> (#[trigger] ss[i]).is_from_shm
                &&& forall|o: int| #[trigger]
                    bm.is_allocated(b, o) ==> bm.is_allocated(a, o) || manager::is_one_of(ss, n, o)
            }),
        ensures
            new_self.wf_slices(bm, b),
            old_self.evolves(bm, a, new_self, b),
            new_self.content(b) == old_self.content(a),
            old_self.same_bytes(a, b),
    {
        let ss0 = old_self.slices();
        let ss = new_self.slices();
        let n = ss0.len() as int;
        let none = Set::<int>::empty();
        assert(cells(ss0).disjoint(none));
        assert(cells(old_self.pins().retired()).disjoint(none));
        lemma_owns_all_kept(bm, a, b, none, ss0);
        lemma_owns_all_kept(bm, a, b, none, old_self.pins().retired());
        assert forall|i: int| 0 <= i < n implies #[trigger] ss[i] == ss0[i] by {
            assert(ss.take(n)[i] == ss[i]);
        }
        assert forall|i: int, j: int|
            0 <= i < j < ss.len() && (#[trigger] ss[i]).is_from_shm && (
            #[trigger] ss[j]).is_from_shm implies ss[i].offset_in_shm != ss[j].offset_in_shm by {
            if i < n && j >= n {
                assert(bm.owns(a, ss0[i]));
                assert(bm.is_new(a, b, ss[j]));
            } else if j < n {
                assert(ss[i] == ss0[i] && ss[j] == ss0[j]);
            }
        }
        assert forall|i: int| 0 <= i < ss.len() implies bm.owns(b, #[trigger] ss[i]) && ss[i].wf(
            b,
        ) by {
            if i < n {
                assert(ss[i] == ss0[i]);
                assert(bm.owns(b, ss0[i]) && ss0[i].wf(b));
            }
        }
        assert(owns_all(bm, b, ss));
        assert forall|o: int| #[trigger] cells(ss).contains(o) implies cells(ss0).contains(o)
            || !bm.is_allocated(a, o) by {
            let i = choose|i: int| #[trigger] cell_at(ss, i, o);
            if i < n {
                assert(cell_at(ss0, i, o));
            } else {
                assert(bm.is_new(a, b, ss[i]));
            }
        }
        assert(cells(ss).disjoint(cells(old_self.pins().retired()))) by {
            assert forall|o: int| !(cells(ss).contains(o) && cells(
                old_self.pins().retired(),
            ).contains(o)) by {
                if cells(old_self.pins().retired()).contains(o) {
                    lemma_cells_allocated(bm, a, old_self.pins().retired(), o);
                }
            }
        }
        let tail = ss.skip(n);
        assert(ss =~= ss0 + tail);
        assert forall|i: int| 0 <= i < tail.len() implies (#[trigger] tail[i]).wf(b)
            && tail[i].read_index == tail[i].write_index by {
            assert(tail[i] == ss[n + i]);
        }
        lemma_content_empty(tail, b);
        lemma_content_add(ss0, tail, b);
        assert(content(ss0, b) + Seq::<u8>::empty() =~= content(ss0, b));
        let rr = old_self.pins().retired();
        assert forall|o: int| #[trigger] is_elsewhere(bm, b, ss, rr, o) implies is_elsewhere(
            bm,
            a,
            ss0,
            rr,
            o,
        ) by {
            if cells(ss0).contains(o) {
                let i = choose|i: int| #[trigger] cell_at(ss0, i, o);
                assert(cell_at(ss, i, o));
            }
            if !bm.is_allocated(a, o) {
                assert(manager::is_one_of(ss, n, o));
                let i = choose|i: int|
                    n <= i < ss.len() && (#[trigger] ss[i]).is_from_shm && ss[i].offset_in_shm == o;
                assert(cell_at(ss, i, o));
            }
        }
        assert(old_self.evolves(bm, a, new_self, b)) by {
            reveal(BufferManager::keeps);
        }
        match new_self.write_pos() {
            Some(w) => {
                assert forall|k: int| w + 1 <= k < ss.len() implies (#[trigger] ss[k]).read_index
                    == ss[k].write_index by {
                    if k < n {
                        assert(ss[k] == ss0[k]);
                    }
                }
            },
            None => {
                assert forall|k: int| 0 <= k < ss.len() implies (#[trigger] ss[k]).read_index
                    == ss[k].write_index by {
                    if k < n {
                        assert(ss[k] == ss0[k]);
                    }
                }
            },
        }
        if new_self.from_shm() {
            assert forall|i: int| 0 <= i < ss.len() implies (#[trigger] ss[i]).is_from_shm by {
                if i < n {
                    assert(ss[i] == ss0[i]);
                }
            }
        }
    }

    /// Nothing was read of the slices, and from the one that takes the next write on no buffer
    /// names one that follows it: what is written can be sent.
    #[verifier::opaque]
    pub open spec fn sendable(self, m: Seq<u8>) -> bool {
        let w = match self.write_pos() {
            Some(w) => w,
            None => 0,
        };
        &&& forall|i: int|
            0 <= i < self.slices().len() ==> (#[trigger] self.slices()[i]).read_index == 0
                && self.slices()[i].start == 0
        &&& forall|i: int|
            0 <= i < self.slices().len() && w <= i && (#[trigger] self.slices()[i]).is_from_shm
                ==> !slice::flag_has_next(
                slice::header_flag(m, self.slices()[i].offset_in_shm as int),
            )
    }

    /// A buffer of which nothing changes stays sendable.
    pub proof fn lemma_sendable_kept(
        self,
        bm: BufferManager,
        a: Seq<u8>,
        b: Seq<u8>,
        own: Set<int>,
    )
        requires
            bm.wf(a),
            owns_all(bm, a, self.slices()),
            bm.keeps(a, b, own),
            cells(self.slices()).disjoint(own),
            self.sendable(a),
            self.write_pos() matches Some(w) ==> 0 <= w,
        ensures
            self.sendable(b),
    {
        reveal(LinkedBuffer::sendable);
        let ss = self.slices();
        assert forall|i: int| 0 <= i < ss.len() && (#[trigger] ss[i]).is_from_shm implies
            slice::header_flag(b, ss[i].offset_in_shm as int) == slice::header_flag(
            a,
            ss[i].offset_in_shm as int,
        ) by {
            assert(bm.owns(a, ss[i]) && ss[i].wf(a));
            assert(cell_at(ss, i, ss[i].offset_in_shm as int));
            assert(cells(ss).contains(ss[i].offset_in_shm as int));
            bm.lemma_keeps_slice(a, b, own, ss[i]);
        }
    }

    /// A buffer without slices is sendable.
    pub proof fn lemma_sendable_empty(self, m: Seq<u8>)
        requires
            self.slices().len() == 0,
        ensures
            self.sendable(m),
    {
        reveal(LinkedBuffer::sendable);
    }

    /// A buffer stays sendable after its slices were recorded by [`LinkedBuffer::done`].
    pub proof fn lemma_sendable_done(self, a: Seq<u8>, next: Self, b: Seq<u8>, w: int)
        requires
            self.sendable(a),
            self.write_pos() == Some(w),
            next.write_pos() == Some(w),
            0 <= w < self.slices().len(),
            if self.from_shm() {
                next.slices() == self.slices().take(w + 1) && recorded(next.slices(), a, b)
            } else {
                next.slices() == self.slices() && b == a
            },
        ensures
            next.sendable(b),
    {
        reveal(LinkedBuffer::sendable);
        if self.from_shm() {
            let ss = self.slices();
            let tt = next.slices();
            assert forall|i: int| 0 <= i < tt.len() implies #[trigger] tt[i] == ss[i] by {}
            assert(recorded_one(tt[w], a, b, next_of(tt, w)));
        }
    }

    /// New slices at the back can be sent.
    proof fn lemma_sendable_extended(
        old_self: Self,
        bm: BufferManager,
        a: Seq<u8>,
        new_self: Self,
        b: Seq<u8>,
    )
        requires
            old_self.wf_slices(bm, a),
            bm.keeps(a, b, Set::empty()),
            new_self.write_pos() == old_self.write_pos(),
            ({
                let n = old_self.slices().len() as int;
                let ss = new_self.slices();
                &&& n <= ss.len()
                &&& ss.take(n) == old_self.slices()
                &&& forall|i: int| n <= i < ss.len() ==> (#[trigger] ss[i]).is_fresh()
                &&& forall|i: int|
                    n <= i < ss.len() && (#[trigger] ss[i]).is_from_shm ==> bm.is_new(a, b, ss[i])
            }),
        ensures
            old_self.sendable(a) ==> new_self.sendable(b),
    {
        reveal(LinkedBuffer::sendable);
        if old_self.sendable(a) {
            let ss = new_self.slices();
            let n = old_self.slices().len() as int;
            slice::lemma_flags(0);
            old_self.lemma_sendable_kept(bm, a, b, Set::empty());
            assert forall|i: int| 0 <= i < n implies #[trigger] ss[i] == old_self.slices()[i] by {
                assert(ss.take(n)[i] == ss[i]);
            }
            assert forall|i: int|
                (match new_self.write_pos() {
                    Some(w) => w,
                    None => 0,
                }) <= i < ss.len() && (#[trigger] ss[i]).is_from_shm implies !slice::flag_has_next(
                slice::header_flag(b, ss[i].offset_in_shm as int),
            ) by {
                if i < n {
                    assert(ss[i] == old_self.slices()[i]);
                } else {
                    assert(bm.is_new(a, b, ss[i]));
                }
            }
            assert forall|i: int| 0 <= i < ss.len() implies (#[trigger] ss[i]).read_index == 0
                && ss[i].start == 0 by {
                if i < n {
                    assert(ss[i] == old_self.slices()[i]);
                }
            }
        }
    }

    /// More of the slice that takes the next write can be sent.
    proof fn lemma_sendable_written(
        old_self: Self,
        bm: BufferManager,
        a: Seq<u8>,
        new_self: Self,
        b: Seq<u8>,
        w: int,
    )
        requires
            old_self.wf_slices(bm, a),
            old_self.write_pos() == Some(w),
            new_self.write_pos() == Some(w),
            ({
                let s = old_self.slices()[w];
                let t = new_self.slices()[w];
                &&& new_self.slices() == old_self.slices().update(w, t)
                &&& t.is_from_shm == s.is_from_shm
                &&& t.offset_in_shm == s.offset_in_shm
                &&& t.read_index == s.read_index
                &&& t.start == s.start
                &&& if s.is_from_shm {
                    let o = s.offset_in_shm as int;
                    bm.keeps(a, b, set![o]) && slice::header_flag(b, o) == slice::header_flag(a, o)
                } else {
                    a == b
                }
            }),
        ensures
            old_self.sendable(a) ==> new_self.sendable(b),
    {
        reveal(LinkedBuffer::sendable);
        if old_self.sendable(a) {
            let ss = old_self.slices();
            let tt = new_self.slices();
            let own = if ss[w].is_from_shm {
                set![ss[w].offset_in_shm as int]
            } else {
                Set::empty()
            };
            assert(bm.keeps(a, b, own)) by {
                reveal(BufferManager::keeps);
            }
            assert forall|i: int|
                w <= i < tt.len() && (#[trigger] tt[i]).is_from_shm implies !slice::flag_has_next(
                slice::header_flag(b, tt[i].offset_in_shm as int),
            ) by {
                assert(ss[i].is_from_shm);
                if i > w {
                    assert(bm.owns(a, ss[i]) && ss[i].wf(a));
                    assert(ss[w].is_from_shm ==> ss[w].offset_in_shm != ss[i].offset_in_shm);
                    bm.lemma_keeps_slice(a, b, own, ss[i]);
                }
            }
            assert forall|i: int| 0 <= i < tt.len() implies (#[trigger] tt[i]).read_index == 0
                && tt[i].start == 0 by {
                assert(ss[i].read_index == 0 && ss[i].start == 0);
            }
        }
    }

    /// Every slice of `self` in `m` was there in `a`, with perhaps less written to it, and those
    /// of `old_self` are the first ones.
    pub open spec fn grew_from(self, m: Seq<u8>, old_self: Self, a: Seq<u8>) -> bool {
        &&& old_self.slices().len() <= self.slices().len()
        &&& forall|i: int|
            0 <= i < old_self.slices().len() ==> (#[trigger] self.slices()[i]).grew_from(
                m,
                old_self.slices()[i],
                a,
            )
    }

    /// The slice that takes the next write changed; nothing else did.
    proof fn lemma_slice_replaced(
        old_self: Self,
        bm: BufferManager,
        a: Seq<u8>,
        new_self: Self,
        b: Seq<u8>,
        w: int,
    )
        requires
            old_self.wf_slices(bm, a),
            bm.wf(b),
            old_self.write_pos() == Some(w),
            new_self.write_pos() == Some(w),
            new_self.pins() == old_self.pins(),
            new_self.from_shm() == old_self.from_shm(),
            ({
                let s = old_self.slices()[w];
                let t = new_self.slices()[w];
                &&& new_self.slices() == old_self.slices().update(w, t)
                &&& t.is_from_shm == s.is_from_shm
                &&& t.offset_in_shm == s.offset_in_shm
                &&& t.wf(b)
                &&& bm.owns(b, t)
                &&& if s.is_from_shm {
                    bm.keeps(a, b, set![s.offset_in_shm as int])
                } else {
                    a == b
                }
            }),
            forall|o: int| #[trigger] bm.is_allocated(b, o) ==> bm.is_allocated(a, o),
        ensures
            new_self.wf_slices(bm, b),
            old_self.evolves(bm, a, new_self, b),
            old_self.content(a) == content(old_self.slices().take(w), a)
                + old_self.slices()[w].unread(a),
            new_self.content(b) == content(old_self.slices().take(w), a)
                + new_self.slices()[w].unread(b),
            forall|i: int|
                0 <= i < old_self.slices().len() && i != w ==> (
                #[trigger] new_self.slices()[i]).bytes(b) == old_self.slices()[i].bytes(a),
    {
        let ss = old_self.slices();
        let tt = new_self.slices();
        let s = ss[w];
        let t = tt[w];
        let o = s.offset_in_shm as int;
        let own = if s.is_from_shm {
            set![o]
        } else {
            Set::empty()
        };
        assert(bm.keeps(a, b, own)) by {
            reveal(BufferManager::keeps);
        }
        assert(bm.owns(a, s) && s.wf(a));
        if s.is_from_shm {
            assert(cell_at(ss, w, o));
        }
        lemma_cells_same(ss, tt);
        assert(cells(old_self.pins().retired()).disjoint(own)) by {
            if s.is_from_shm {
                assert(cells(ss).contains(o));
            }
        }
        lemma_owns_all_kept(bm, a, b, own, old_self.pins().retired());
        assert forall|i: int| 0 <= i < ss.len() && i != w implies {
            &&& bm.owns(b, #[trigger] ss[i])
            &&& ss[i].wf(b)
            &&& ss[i].unread(b) == ss[i].unread(a)
            &&& ss[i].bytes(b) == ss[i].bytes(a)
        } by {
            assert(bm.owns(a, ss[i]) && ss[i].wf(a));
            if i < w {
                assert(!(ss[i].is_from_shm && ss[w].is_from_shm) || ss[i].offset_in_shm
                    != ss[w].offset_in_shm);
            } else {
                assert(!(ss[w].is_from_shm && ss[i].is_from_shm) || ss[w].offset_in_shm
                    != ss[i].offset_in_shm);
            }
            bm.lemma_keeps_slice(a, b, own, ss[i]);
        }
        assert forall|i: int, j: int|
            0 <= i < j < tt.len() && (#[trigger] tt[i]).is_from_shm && (
            #[trigger] tt[j]).is_from_shm implies tt[i].offset_in_shm != tt[j].offset_in_shm by {
            assert(ss[i].offset_in_shm != ss[j].offset_in_shm);
        }
        assert(owns_all(bm, b, tt));
        assert(old_self.evolves(bm, a, new_self, b)) by {
            bm.lemma_keeps_wider(a, b, own, cells(ss));
        }
        // The content: in front of the slice, the slice, and nothing behind it.
        assert(ss =~= ss.take(w) + (seq![s] + ss.skip(w + 1)));
        assert(tt =~= ss.take(w) + (seq![t] + ss.skip(w + 1)));
        lemma_content_add(ss.take(w), seq![s] + ss.skip(w + 1), a);
        lemma_content_add(seq![s], ss.skip(w + 1), a);
        lemma_content_one(s, a);
        lemma_content_add(ss.take(w), seq![t] + ss.skip(w + 1), b);
        lemma_content_add(seq![t], ss.skip(w + 1), b);
        lemma_content_one(t, b);
        lemma_content_same(ss.take(w), a, ss.take(w), b);
        assert forall|i: int| 0 <= i < ss.skip(w + 1).len() implies (
        #[trigger] ss.skip(w + 1)[i]).wf(a) && ss.skip(w + 1)[i].wf(b) && ss.skip(
            w + 1,
        )[i].read_index == ss.skip(w + 1)[i].write_index by {
            assert(ss.skip(w + 1)[i] == ss[w + 1 + i]);
        }
        lemma_content_empty(ss.skip(w + 1), a);
        lemma_content_empty(ss.skip(w + 1), b);
        assert(old_self.content(a) =~= content(ss.take(w), a) + s.unread(a));
        assert(new_self.content(b) =~= content(ss.take(w), a) + t.unread(b));
        if new_self.from_shm() {
            assert forall|i: int| 0 <= i < tt.len() implies (#[trigger] tt[i]).is_from_shm by {
                assert(ss[i].is_from_shm);
            }
        }
    }

    /// The slice that takes the next write grew by `extra`; nothing else changed.
    proof fn lemma_written(
        old_self: Self,
        bm: BufferManager,
        a: Seq<u8>,
        new_self: Self,
        b: Seq<u8>,
        w: int,
        extra: Seq<u8>,
    )
        requires
            old_self.wf_slices(bm, a),
            bm.wf(b),
            old_self.write_pos() == Some(w),
            new_self.write_pos() == Some(w),
            new_self.pins() == old_self.pins(),
            new_self.from_shm() == old_self.from_shm(),
            ({
                let s = old_self.slices()[w];
                let t = new_self.slices()[w];
                &&& new_self.slices() == old_self.slices().update(w, t)
                &&& t.grew_from(b, s, a)
                &&& t.wf(b)
                &&& bm.owns(b, t)
                &&& t.unread(b) == s.unread(a) + extra
                &&& if s.is_from_shm {
                    bm.keeps(a, b, set![s.offset_in_shm as int])
                } else {
                    a == b
                }
            }),
            forall|o: int| #[trigger] bm.is_allocated(b, o) ==> bm.is_allocated(a, o),
        ensures
            new_self.wf_slices(bm, b),
            old_self.evolves(bm, a, new_self, b),
            new_self.grew_from(b, old_self, a),
            new_self.content(b) == old_self.content(a) + extra,
    {
        let ss = old_self.slices();
        let tt = new_self.slices();
        Self::lemma_slice_replaced(old_self, bm, a, new_self, b, w);
        assert(new_self.content(b) =~= old_self.content(a) + extra);
        assert forall|i: int| 0 <= i < ss.len() implies (#[trigger] tt[i]).grew_from(
            b,
            ss[i],
            a,
        ) by {
            if i != w {
                assert(tt[i] == ss[i]);
            }
        }
    }

    /// Appends as much of `data` as there is room for in the slice that takes the next write.
    fn append_to_write(&mut self, bm: &BufferManager, mem: &mut [u8], data: &[u8]) -> (n: usize)
        requires
            old(self).wf_slices(*bm, old(mem)@),
            old(self).write_pos() is Some,
        ensures
            final(self).wf_slices(*bm, final(mem)@),
            final(mem)@.len() == old(mem)@.len(),
            old(self).evolves(*bm, old(mem)@, *final(self), final(mem)@),
            final(self).grew_from(final(mem)@, *old(self), old(mem)@),
            final(self).content(final(mem)@) == old(self).content(old(mem)@) + data@.take(
                n as int,
            ),
            final(self).slices().len() == old(self).slices().len(),
            final(self).write_pos() == old(self).write_pos(),
            final(self).pins() == old(self).pins(),
            final(self).from_shm() == old(self).from_shm(),
            final(self).spec_len() == old(self).spec_len(),
            old(self).sendable(old(mem)@) ==> final(self).sendable(final(mem)@),
            bm.frees(final(mem)@) == bm.frees(old(mem)@),
            bm.counters(final(mem)@) == bm.counters(old(mem)@),
            ({
                let w = old(self).write_pos()->0;
                let s = old(self).slices()[w];
                let t = final(self).slices()[w];
                &&& n == s.room_for(data@.len() as int)
                &&& final(self).slices() == old(self).slices().update(w, t)
                &&& placement::same_buffer(t, s)
                &&& t.write_index == s.write_index + n
            }),
    {
        broadcast use mem::group_mem;

        let ghost m0 = mem@;
        let ghost s0 = *self;
        let ghost w = self.write_pos()->0;
        let ghost s = self.slices()[w];
        proof {
            assert(bm.owns(m0, s) && s.wf(m0));
        }
        let n: usize = match self.slice_list.write_slice() {
            Some(i) => self.slice_list.get_mut(i).append(mem, data),
            None => 0,
        };
        proof {
            let t = self.slices()[w];
            assert(self.slices() =~= s0.slices().update(w, t));
            if s.is_from_shm {
                let o = s.offset_in_shm as int;
                let k = choose|k: int| bm.in_use(m0, k, o);
                bm.lemma_in_use(m0, k, o);
                bm.lemma_cell_written(m0, mem@, o);
            }
            Self::lemma_written(s0, *bm, m0, *self, mem@, w, data@.take(n as int));
            Self::lemma_sendable_written(s0, *bm, m0, *self, mem@, w);
        }
        n
    }

    /// How many bytes to ask for at once where `left` are to be written.
    fn request(left: usize) -> (r: u32)
        ensures
            r == if left <= u32::MAX {
                left as u32
            } else {
                u32::MAX
            },
    {
        if left <= u32::MAX as usize {
            left as u32
        } else {
            u32::MAX
        }
    }

    /// Writes all of `bytes` at the back.
    pub fn write_bytes(&mut self, bm: &BufferManager, mem: &mut [u8], bytes: &[u8]) -> (r: Result<
        usize,
        Error,
    >)
        requires
            old(self).wf(*bm, old(mem)@),
            old(self).spec_len() + bytes@.len() <= usize::MAX,
        ensures
            r == Ok::<usize, Error>(bytes@.len() as usize),
            final(self).wf(*bm, final(mem)@),
            final(mem)@.len() == old(mem)@.len(),
            final(self).content(final(mem)@) == old(self).content(old(mem)@) + bytes@,
            final(self).grew_from(final(mem)@, *old(self), old(mem)@),
            final(self).pins() == old(self).pins(),
            old(self).evolves(*bm, old(mem)@, *final(self), final(mem)@),
            bytes@.len() > 0 ==> final(self).write_pos() is Some,
            bytes@.len() == 0 ==> *final(self) == *old(self) && final(mem)@ == old(mem)@,
            old(self).sendable(old(mem)@) ==> final(self).sendable(final(mem)@),
            bytes@.len() > 0 ==> placement::placed(
                *bm,
                bm.frees(old(mem)@),
                *old(self),
                bm.frees(final(mem)@),
                *final(self),
                bytes@.len() as int,
            ),
            bm.in_balance(old(mem)@) ==> bm.in_balance(final(mem)@),
    {
        let ghost m0 = mem@;
        let ghost s0 = *self;
        let ghost f0 = bm.frees(m0);
        let ghost mut asked = false;
        let total: usize = bytes.len();
        proof {
            self.lemma_evolves_refl(*bm, m0);
        }
        if total == 0 {
            assert(self.content(mem@) + bytes@ =~= self.content(mem@));
            return Ok(0);
        }
        if self.slice_list.write_slice().is_none() {
            self.alloc_slices(bm, mem, Self::request(total));
            proof {
                Self::lemma_same_slices_grew(s0, *bm, m0, *self, mem@);
            }
            self.write_from_front();
            proof {
                asked = true;
                assert forall|i: int| 0 <= i < s0.slices().len() implies (
                #[trigger] s0.slices()[i]).write_index <= s0.slices()[i].cap by {
                    assert(s0.slices()[i].wf(m0));
                }
                placement::lemma_begins_asking(
                    *bm,
                    f0,
                    s0,
                    total as int,
                    bm.frees(mem@),
                    *self,
                );
            }
        } else {
            proof {
                placement::lemma_begins(*bm, f0, s0, total as int);
            }
        }
        let mut n: usize = 0;
        assert(bytes@.take(0) =~= Seq::<u8>::empty());
        assert(s0.content(m0) + bytes@.take(0) =~= s0.content(m0));
        loop
            invariant_except_break
                n < total,
            invariant
                self.wf_slices(*bm, mem@),
                s0.wf_slices(*bm, m0),
                mem@.len() == m0.len(),
                s0.evolves(*bm, m0, *self, mem@),
                self.grew_from(mem@, s0, m0),
                s0.sendable(m0) ==> self.sendable(mem@),
                self.pins() == s0.pins(),
                self.spec_len() == s0.spec_len(),
                self.write_pos() is Some,
                bm.in_balance(m0) ==> bm.in_balance(mem@),
                placement::writing(
                    *bm,
                    f0,
                    s0,
                    total as int,
                    bm.frees(mem@),
                    *self,
                    n as int,
                    asked,
                ),
                0 <= n <= total,
                total == bytes@.len(),
                0 < total,
                self.content(mem@) == s0.content(m0) + bytes@.take(n as int),
            ensures
                n == total,
                placement::written_before(s0, self.write_pos()->0)
                    < self.slices()[self.write_pos()->0].write_index,
            decreases
                total - n,
                ({
                    let w = self.write_pos()->0;
                    let s = self.slices()[w];
                    if s.write_index == s.cap {
                        1 + self.slices().len() - w
                    } else {
                        0
                    }
                }),
        {
            let ghost m1 = mem@;
            let ghost s1 = *self;
            let rest = vstd::slice::slice_subrange(bytes, n, total);
            let k: usize = self.append_to_write(bm, mem, rest);
            let ghost m2 = mem@;
            let ghost s2 = *self;
            proof {
                s0.lemma_evolves_trans(*bm, m0, s1, m1, s2, m2);
                Self::lemma_grew_trans(s0, m0, s1, m1, s2, m2);
                assert(bytes@.take(n as int) + rest@.take(k as int) =~= bytes@.take(n + k));
                assert(s0.content(m0) + bytes@.take(n as int) + rest@.take(k as int)
                    =~= s0.content(m0) + (bytes@.take(n as int) + rest@.take(k as int)));
            }
            proof {
                placement::lemma_writes(
                    *bm,
                    f0,
                    s0,
                    total as int,
                    bm.frees(m2),
                    s1,
                    s2,
                    n as int,
                    k as int,
                    asked,
                );
                let w1 = s1.write_pos()->0;
                if w1 < s0.slices().len() {
                    assert(s1.slices()[w1].grew_from(m1, s0.slices()[w1], m0));
                }
            }
            n = n + k;
            if n < total {
                let w: usize = match self.slice_list.write_slice() {
                    Some(w) => w,
                    None => 0,
                };
                let size: usize = self.slice_list.size();
                if w == size - 1 {
                    self.alloc_slices(bm, mem, Self::request(total - n));
                    proof {
                        s0.lemma_evolves_trans(*bm, m0, s2, m2, *self, mem@);
                        Self::lemma_same_slices_grew(s2, *bm, m2, *self, mem@);
                        Self::lemma_grew_trans(s0, m0, s2, m2, *self, mem@);
                        assert(self.slices()[w + 1].is_fresh());
                        placement::lemma_asks(
                            *bm,
                            f0,
                            s0,
                            total as int,
                            bm.frees(m2),
                            s2,
                            bm.frees(mem@),
                            *self,
                            n as int,
                            asked,
                        );
                        asked = true;
                    }
                }
                let ghost m3 = mem@;
                let ghost s3 = *self;
                self.slice_list.set_write_slice(Some(w + 1));
                proof {
                    Self::lemma_write_moved(s3, *bm, *self, mem@);
                    assert(s3.slices()[w as int] == s2.slices()[w as int]);
                    placement::lemma_goes_on(
                        *bm,
                        f0,
                        s0,
                        total as int,
                        bm.frees(mem@),
                        s3,
                        *self,
                        n as int,
                        asked,
                    );
                }
            } else {
                break;
            }
        }
        let ghost s4 = *self;
        self.len = self.len + n;
        assert(bytes@.take(n as int) =~= bytes@);
        proof {
            assert forall|i: int| 0 <= i < self.slices().len() implies (
            #[trigger] self.slices()[i]).write_index <= self.slices()[i].cap by {
                assert(s4.slices()[i].wf(mem@));
            }
            placement::lemma_ends(*bm, f0, s0, total as int, bm.frees(mem@), s4, asked);
            reveal(LinkedBuffer::sendable);
        }
        Ok(n)
    }

    /// Lets the first slice take the next write.
    pub fn write_from_front(&mut self)
        requires
            old(self).slices().len() > 0,
            old(self).write_pos() is None,
        ensures
            final(self).write_pos() == Some(0int),
            final(self).slices() == old(self).slices(),
            final(self).pins() == old(self).pins(),
            final(self).spec_len() == old(self).spec_len(),
            final(self).from_shm() == old(self).from_shm(),
            forall|bm: BufferManager, m: Seq<u8>| #[trigger]
                old(self).wf_slices(bm, m) ==> final(self).wf_slices(bm, m) && (old(self).sendable(
                    m,
                ) ==> final(self).sendable(m)),
    {
        let ghost s0 = *self;
        self.slice_list.set_write_slice(Some(0));
        assert forall|bm: BufferManager, m: Seq<u8>| #[trigger]
            s0.wf_slices(bm, m) implies self.wf_slices(bm, m) && (s0.sendable(m) ==> self.sendable(
            m,
        )) by {
            Self::lemma_write_moved(s0, bm, *self, m);
        }
    }

    /// Another slice takes the next write.
    proof fn lemma_write_moved(old_self: Self, bm: BufferManager, new_self: Self, m: Seq<u8>)
        requires
            old_self.wf_slices(bm, m),
            new_self.slices() == old_self.slices(),
            new_self.pins() == old_self.pins(),
            new_self.from_shm() == old_self.from_shm(),
            new_self.write_pos() matches Some(v) && 0 <= v < new_self.slices().len() && (
            old_self.write_pos() matches Some(w) ==> w <= v),
        ensures
            new_self.wf_slices(bm, m),
            old_self.sendable(m) ==> new_self.sendable(m),
    {
        reveal(LinkedBuffer::sendable);
    }

    proof fn lemma_grew_trans(
        s0: Self,
        m0: Seq<u8>,
        s1: Self,
        m1: Seq<u8>,
        s2: Self,
        m2: Seq<u8>,
    )
        requires
            s1.grew_from(m1, s0, m0),
            s2.grew_from(m2, s1, m1),
            forall|i: int| 0 <= i < s0.slices().len() ==> (#[trigger] s0.slices()[i]).wf(m0),
            forall|i: int| 0 <= i < s1.slices().len() ==> (#[trigger] s1.slices()[i]).wf(m1),
            forall|i: int| 0 <= i < s2.slices().len() ==> (#[trigger] s2.slices()[i]).wf(m2),
        ensures
            s2.grew_from(m2, s0, m0),
    {
        assert forall|i: int| 0 <= i < s0.slices().len() implies (
        #[trigger] s2.slices()[i]).grew_from(m2, s0.slices()[i], m0) by {
            let x = s0.slices()[i];
            let y = s1.slices()[i];
            let z = s2.slices()[i];
            assert(y.grew_from(m1, x, m0));
            assert(z.grew_from(m2, y, m1));
            assert(x.wf(m0) && y.wf(m1) && z.wf(m2));
            assert(z.bytes(m2).take(x.write_index as int) =~= z.bytes(m2).take(
                y.write_index as int,
            ).take(x.write_index as int));
            assert(y.bytes(m1).take(x.write_index as int) =~= y.bytes(m1).take(
                y.write_index as int,
            ).take(x.write_index as int));
        }
    }

    /// Slices that others were appended to did not change.
    proof fn lemma_same_slices_grew(s0: Self, bm: BufferManager, m0: Seq<u8>, s1: Self, m1: Seq<u8>)
        requires
            s0.wf_slices(bm, m0),
            s0.slices().len() <= s1.slices().len(),
            s1.slices().take(s0.slices().len() as int) == s0.slices(),
            s0.evolves(bm, m0, s1, m1),
            s0.same_bytes(m0, m1),
        ensures
            s1.grew_from(m1, s0, m0),
    {
        assert forall|i: int| 0 <= i < s0.slices().len() implies (
        #[trigger] s1.slices()[i]).grew_from(m1, s0.slices()[i], m0) by {
            assert(s1.slices().take(s0.slices().len() as int)[i] == s1.slices()[i]);
            assert(s0.slices()[i].bytes(m1) == s0.slices()[i].bytes(m0));
        }
    }

    /// The slices hold the same bytes in both regions.
    pub open spec fn same_bytes(self, a: Seq<u8>, b: Seq<u8>) -> bool {
        forall|i: int|
            0 <= i < self.slices().len() ==> (#[trigger] self.slices()[i]).bytes(b)
                == self.slices()[i].bytes(a)
    }

    /// Ends a run of writes: records in the headers what was written and how the buffers follow
    /// one another, and gives back the buffers that no write came to. A buffer that is partly on
    /// the heap stays as it is.
    #[verifier::spinoff_prover]
    #[verifier::rlimit(40)]
    pub fn done(&mut self, bm: &BufferManager, mem: &mut [u8], end_stream: bool)
        requires
            old(self).wf(*bm, old(mem)@),
        ensures
            final(self).wf(*bm, final(mem)@),
            final(mem)@.len() == old(mem)@.len(),
            old(self).evolves(*bm, old(mem)@, *final(self), final(mem)@),
            final(self).content(final(mem)@) == old(self).content(old(mem)@),
            final(self).spec_len() == old(self).spec_len(),
            final(self).write_pos() == old(self).write_pos(),
            final(self).pins() == old(self).pins(),
            final(self).from_shm() == old(self).from_shm(),
            final(self).slices() == match old(self).write_pos() {
                Some(w) if old(self).from_shm() => old(self).slices().take(w + 1),
                _ => old(self).slices(),
            },
            final(self).same_bytes(old(mem)@, final(mem)@),
            if old(self).from_shm() {
                recorded(final(self).slices(), old(mem)@, final(mem)@)
            } else {
                final(mem)@ == old(mem)@
            },
            ({
                let unused = old(self).slices().skip(final(self).slices().len() as int);
                &&& bm.frees(final(mem)@) == taking::frees_with(
                    *bm,
                    bm.frees(old(mem)@),
                    unused,
                )
                &&& bm.counters(final(mem)@) == taking::counts_with(
                    *bm,
                    bm.counters(old(mem)@),
                    unused,
                )
            }),
            bm.in_balance(old(mem)@) ==> bm.in_balance(final(mem)@),
            old(self).from_shm() && old(self).write_pos() is Some ==> forall|i: int|
                old(self).write_pos()->0 < i < old(self).slices().len() ==> !bm.is_allocated(
                    final(mem)@,
                    (#[trigger] old(self).slices()[i]).offset_in_shm as int,
                ),
    {
        let ghost m0 = mem@;
        let ghost s0 = *self;
        let ghost ss0 = self.slices();
        if !self.is_from_shm {
            proof {
                self.lemma_evolves_refl(*bm, m0);
                assert(ss0.skip(ss0.len() as int) =~= Seq::<BufferSlice>::empty());
            }
            return;
        }
        let unused: Option<SliceList> = self.slice_list.split_from_write();
        let n: usize = self.slice_list.size();
        let ghost ss = self.slices();
        let ghost tail = ss0.skip(n as int);
        proof {
            assert(ss0.take(n as int) =~= ss);
            assert(forall|i: int| 0 <= i < n ==> ss[i] == ss0[i]);
            assert(bm.keeps(m0, mem@, cells(ss0))) by {
                reveal(BufferManager::keeps);
            }
        }
        let mut i: usize = 0;
        while i < n
            invariant
                n == self.slices().len(),
                n <= ss0.len(),
                0 <= i <= n,
                ss == self.slices(),
                ss == ss0.take(n as int),
                ss0 == s0.slices(),
                mem@.len() == m0.len(),
                bm.wf(m0),
                bm.wf(mem@),
                owns_all(*bm, m0, ss0),
                owns_all(*bm, mem@, ss0),
                self.write_pos() == s0.write_pos(),
                self.pins() == s0.pins(),
                self.from_shm() == s0.from_shm(),
                self.spec_len() == s0.spec_len(),
                forall|k: int| 0 <= k < ss0.len() ==> (#[trigger] ss0[k]).is_from_shm,
                forall|k: int|
                    0 <= k < ss0.len() ==> (#[trigger] ss0[k]).bytes(mem@) == ss0[k].bytes(m0),
                bm.keeps(m0, mem@, cells(ss0)),
                bm.frees(mem@) == bm.frees(m0),
                bm.counters(mem@) == bm.counters(m0),
                forall|o: int| bm.is_allocated(mem@, o) == bm.is_allocated(m0, o),
                forall|k: int|
                    0 <= k < i ==> recorded_one(
                        #[trigger] ss[k],
                        m0,
                        mem@,
                        next_of(ss, k),
                    ),
                forall|k: int|
                    i <= k < ss0.len() ==> slice::header_flag(
                        mem@,
                        (#[trigger] ss0[k]).offset_in_shm as int,
                    ) == slice::header_flag(m0, ss0[k].offset_in_shm as int),
            decreases n - i,
        {
            let ghost m1 = mem@;
            let next: Option<u32> = if i + 1 < n {
                Some(self.slice_list.get(i + 1).offset_in_shm)
            } else {
                None
            };
            proof {
                assert(ss[i as int] == ss0[i as int]);
                assert(bm.owns(m1, ss0[i as int]) && ss0[i as int].wf(m1));
                let o = ss0[i as int].offset_in_shm as int;
                let k = choose|k: int| bm.in_use(m1, k, o);
                bm.lemma_in_use(m1, k, o);
                assert(cell_at(ss0, i as int, o));
            }
            self.slice_list.get(i).update(mem, next);
            proof {
                let o = ss0[i as int].offset_in_shm as int;
                lemma_header_written(*bm, m1, mem@, ss0, i as int, next);
                bm.lemma_keeps_wider(m1, mem@, set![o], cells(ss0));
                bm.lemma_keeps_trans(m0, m1, mem@, cells(ss0), cells(ss0));
                assert forall|k: int| 0 <= k < i + 1 implies recorded_one(
                    #[trigger] ss[k],
                    m0,
                    mem@,
                    next_of(ss, k),
                ) by {
                    assert(ss[k] == ss0[k]);
                    if k < i {
                        assert(recorded_one(ss[k], m0, m1, next_of(ss, k)));
                    }
                }
            }
            i += 1;
        }
        proof {
            lemma_content_same(ss0, m0, ss0, mem@);
        }
        let ghost m1 = mem@;
        assert(recorded(ss, m0, m1)) by {
            assert forall|k: int| 0 <= k < ss.len() implies recorded_one(
                #[trigger] ss[k],
                m0,
                m1,
                next_of(ss, k),
            ) by {}
        }
        match unused {
            Some(l) => {
                let mut list = l;
                let ghost mut g: int = 0;
                assert(list@ =~= tail);
                assert(tail.skip(0) =~= tail);
                assert(tail.take(0) =~= Seq::<BufferSlice>::empty());
                loop
                    invariant
                        0 <= g <= tail.len(),
                        list@ == tail.skip(g),
                        tail == ss0.skip(n as int),
                        n <= ss0.len(),
                        ss == ss0.take(n as int),
                        ss == self.slices(),
                        mem@.len() == m0.len(),
                        bm.wf(m0),
                        bm.wf(mem@),
                        owns_all(*bm, m0, ss0),
                        forall|k: int| 0 <= k < ss0.len() ==> (#[trigger] ss0[k]).is_from_shm,
                        owns_all(*bm, mem@, ss),
                        owns_all(*bm, mem@, tail.skip(g)),
                        forall|k: int|
                            0 <= k < n ==> (#[trigger] ss[k]).bytes(mem@) == ss[k].bytes(m0),
                        bm.keeps(m0, mem@, cells(ss0)),
                        forall|k: int|
                            n <= k < n + g ==> !bm.is_allocated(
                                mem@,
                                (#[trigger] ss0[k]).offset_in_shm as int,
                            ),
                        recorded(ss, m0, mem@),
                        forall|x: int| #[trigger]
                            bm.is_allocated(mem@, x) ==> bm.is_allocated(m0, x),
                        bm.frees(mem@) == taking::frees_with(*bm, bm.frees(m0), tail.take(g)),
                        bm.counters(mem@) == taking::counts_with(
                            *bm,
                            bm.counters(m0),
                            tail.take(g),
                        ),
                    ensures
                        g == tail.len(),
                    decreases tail.len() - g,
                {
                    let ghost m2 = mem@;
                    let ghost rest = tail.skip(g);
                    match list.pop_front() {
                        Some(s) => {
                            proof {
                                assert(rest[0] == s);
                                assert(bm.owns(m2, rest[0]));
                                assert(ss0[n + g] == s);
                            }
                            bm.recycle_buffer(mem, s);
                            proof {
                                let o = s.offset_in_shm as int;
                                assert(cells(ss).disjoint(set![o])) by {
                                    assert forall|k: int| 0 <= k < n implies (
                                    #[trigger] ss[k]).offset_in_shm != o by {
                                        assert(ss[k] == ss0[k]);
                                        assert(ss0[k].offset_in_shm != ss0[n
                                            + g].offset_in_shm);
                                    }
                                    lemma_cells_without(ss, o);
                                }
                                assert(rest.skip(1) =~= tail.skip(g + 1));
                                assert(cells(rest.skip(1)).disjoint(set![o])) by {
                                    assert forall|k: int| 0 <= k < rest.skip(1).len() implies (
                                    #[trigger] rest.skip(1)[k]).offset_in_shm != o by {
                                        assert(rest.skip(1)[k] == ss0[n + g + 1 + k]);
                                        assert(ss0[n + g].offset_in_shm != ss0[n + g + 1
                                            + k].offset_in_shm);
                                    }
                                    lemma_cells_without(rest.skip(1), o);
                                }
                                lemma_owns_all_kept(*bm, m2, mem@, set![o], ss);
                                assert(owns_all(*bm, m2, rest.skip(1))) by {
                                    assert forall|k: int| 0 <= k < rest.skip(1).len() implies bm.owns(
                                        m2,
                                        #[trigger] rest.skip(1)[k],
                                    ) && rest.skip(1)[k].wf(m2) by {
                                        assert(rest.skip(1)[k] == rest[k + 1]);
                                    }
                                }
                                lemma_owns_all_kept(*bm, m2, mem@, set![o], rest.skip(1));
                                lemma_recorded_kept(*bm, m0, m2, mem@, set![o], ss);
                                assert(cells(ss0).contains(o)) by {
                                    assert(cell_at(ss0, n + g, o));
                                }
                                bm.lemma_keeps_wider(m2, mem@, set![o], cells(ss0));
                                bm.lemma_keeps_trans(m0, m2, mem@, cells(ss0), cells(ss0));
                                assert forall|k: int| n <= k < n + g + 1 implies !bm.is_allocated(
                                    mem@,
                                    (#[trigger] ss0[k]).offset_in_shm as int,
                                ) by {
                                    if k < n + g && bm.is_allocated(
                                        mem@,
                                        ss0[k].offset_in_shm as int,
                                    ) {
                                        bm.lemma_allocated_back(
                                            m2,
                                            mem@,
                                            o,
                                            ss0[k].offset_in_shm as int,
                                        );
                                    }
                                }
                                assert forall|x: int| #[trigger]
                                    bm.is_allocated(mem@, x) implies bm.is_allocated(m0, x) by {
                                    bm.lemma_allocated_back(m2, mem@, o, x);
                                }
                                let part = tail.take(g + 1);
                                assert(part.drop_last() =~= tail.take(g));
                                assert(part.last() == s);
                                g = g + 1;
                            }
                        },
                        None => {
                            assert(g == tail.len());
                            assert(tail.take(g) =~= tail);
                            break;
                        },
                    }
                }
            },
            None => {
                assert(tail =~= Seq::<BufferSlice>::empty());
            },
        }
        proof {
            self.lemma_done(s0, *bm, m0, mem@);
            if bm.in_balance(m0) {
                taking::lemma_owns_part(*bm, m0, ss0, n as int, ss0.len() as int);
                assert(ss0.subrange(n as int, ss0.len() as int) =~= tail);
                taking::lemma_balance_with(*bm, m0, mem@, tail);
            }
        }
    }

    /// What is left after the unused slices were given back.
    proof fn lemma_done(self, s0: Self, bm: BufferManager, m0: Seq<u8>, m: Seq<u8>)
        requires
            s0.wf(bm, m0),
            s0.from_shm(),
            bm.wf(m),
            m.len() == m0.len(),
            bm.keeps(m0, m, cells(s0.slices())),
            self.write_pos() == s0.write_pos(),
            self.pins() == s0.pins(),
            self.from_shm() == s0.from_shm(),
            self.spec_len() == s0.spec_len(),
            self.slices() == match s0.write_pos() {
                Some(w) => s0.slices().take(w + 1),
                None => s0.slices(),
            },
            owns_all(bm, m, self.slices()),
            self.same_bytes(m0, m),
            forall|o: int| #[trigger] bm.is_allocated(m, o) ==> bm.is_allocated(m0, o),
            forall|i: int|
                self.slices().len() <= i < s0.slices().len() ==> !bm.is_allocated(
                    m,
                    (#[trigger] s0.slices()[i]).offset_in_shm as int,
                ),
        ensures
            self.wf(bm, m),
            s0.evolves(bm, m0, self, m),
            self.content(m) == s0.content(m0),
    {
        let ss0 = s0.slices();
        let ss = self.slices();
        let n = ss.len() as int;
        assert(ss =~= ss0.take(n));
        let tail = ss0.skip(n);
        assert(ss0 =~= ss + tail);
        lemma_content_add(ss, tail, m0);
        assert forall|i: int| 0 <= i < tail.len() implies (#[trigger] tail[i]).wf(m0)
            && tail[i].read_index == tail[i].write_index by {
            assert(tail[i] == ss0[n + i]);
        }
        lemma_content_empty(tail, m0);
        assert(content(ss, m0) + Seq::<u8>::empty() =~= content(ss, m0));
        lemma_content_same(ss, m, ss, m0);
        assert forall|o: int| #[trigger] cells(ss).contains(o) implies cells(ss0).contains(o) by {
            let i = choose|i: int| #[trigger] cell_at(ss, i, o);
            assert(cell_at(ss0, i, o));
        }
        assert forall|o: int| #[trigger]
            is_elsewhere(bm, m, ss, s0.pins().retired(), o) implies is_elsewhere(
            bm,
            m0,
            ss0,
            s0.pins().retired(),
            o,
        ) by {
            if cells(ss0).contains(o) {
                let i = choose|i: int| #[trigger] cell_at(ss0, i, o);
                if i < n {
                    assert(cell_at(ss, i, o));
                }
            }
        }
        lemma_owns_all_kept(bm, m0, m, cells(ss0), s0.pins().retired());
        assert forall|i: int| 0 <= i < ss.len() implies (#[trigger] ss[i]).is_from_shm by {
            assert(ss[i] == ss0[i]);
        }
        assert forall|k: int| 0 <= k < n implies #[trigger] ss[k] == ss0[k] by {}
    }

    /// One more pin on the first slice can be counted.
    pub open spec fn can_pin(self) -> bool {
        self.pins().front() matches Some(f) ==> self.pins().leases()[f] < usize::MAX
    }

    /// Whether one more pin on the first slice can be counted.
    pub fn has_free_pin(&self, bm: &BufferManager, mem: &[u8]) -> (r: bool)
        requires
            self.wf(*bm, mem@),
        ensures
            r == self.can_pin(),
    {
        match self.pin_registry.front {
            Some(f) => self.pin_registry.leases[f] < usize::MAX,
            None => true,
        }
    }

    /// The first slice left the buffer: it waits for its pins in `b`, or it was given back.
    pub open spec fn lost_front(self, bm: BufferManager, a: Seq<u8>, next: Self, b: Seq<u8>) -> bool {
        let s = self.slices()[0];
        &&& self.slices().len() > 0
        &&& next.slices() == self.slices().skip(1)
        &&& next.write_pos() == match self.write_pos() {
            Some(w) if w > 0 => Some(w - 1),
            _ => None,
        }
        &&& next.from_shm() == self.from_shm()
        &&& next.pins().front() is None
        &&& next.pins().leases() == self.pins().leases()
        &&& if self.pins().front_pinned() {
            &&& b == a
            &&& next.pins().retired() == self.pins().retired().push(s)
            &&& next.pins().retired_ids() == self.pins().retired_ids().push(
                self.pins().front()->0,
            )
        } else {
            &&& next.pins().retired() == self.pins().retired()
            &&& next.pins().retired_ids() == self.pins().retired_ids()
            &&& if s.is_from_shm {
                bm.gives_back(a, b, s.offset_in_shm as int)
            } else {
                b == a
            }
        }
    }

    /// Without its first slice the buffer is in order, with the content of the others.
    proof fn lemma_lost_front(self, bm: BufferManager, a: Seq<u8>, next: Self, b: Seq<u8>)
        requires
            self.wf_slices(bm, a),
            self.lost_front(bm, a, next, b),
            next.pins().wf(),
            bm.wf(b),
        ensures
            next.wf_slices(bm, b),
            self.evolves(bm, a, next, b),
            next.content(b) == content(self.slices().skip(1), a),
            forall|i: int|
                0 <= i < next.slices().len() ==> (#[trigger] next.slices()[i]).bytes(b)
                    == next.slices()[i].bytes(a),
    {
        let ss = self.slices();
        let tt = next.slices();
        let s = ss[0];
        let o = s.offset_in_shm as int;
        let rr = self.pins().retired();
        lemma_cells_front(ss);
        assert(bm.owns(a, s) && s.wf(a));
        assert(owns_all(bm, a, tt)) by {
            assert forall|i: int| 0 <= i < tt.len() implies bm.owns(a, #[trigger] tt[i])
                && tt[i].wf(a) by {
                assert(tt[i] == ss[i + 1]);
            }
            assert forall|i: int, j: int|
                0 <= i < j < tt.len() && (#[trigger] tt[i]).is_from_shm && (
                #[trigger] tt[j]).is_from_shm implies tt[i].offset_in_shm
                != tt[j].offset_in_shm by {
                assert(tt[i] == ss[i + 1] && tt[j] == ss[j + 1]);
            }
        }
        let own = if s.is_from_shm && !self.pins().front_pinned() {
            set![o]
        } else {
            Set::empty()
        };
        assert(bm.keeps(a, b, own)) by {
            reveal(BufferManager::keeps);
        }
        assert(own.subset_of(cells(ss))) by {
            if s.is_from_shm {
                assert(cells(ss).contains(o));
            }
        }
        bm.lemma_keeps_wider(a, b, own, cells(ss));
        assert(s.is_from_shm ==> !cells(tt).contains(o)) by {
            if s.is_from_shm && cells(tt).contains(o) {
                let i = choose|i: int| #[trigger] cell_at(tt, i, o);
                assert(tt[i] == ss[i + 1]);
                assert(ss[0].offset_in_shm != ss[i + 1].offset_in_shm);
            }
        }
        assert(cells(tt).disjoint(own));
        assert(cells(rr).disjoint(own));
        lemma_owns_all_kept(bm, a, b, own, tt);
        lemma_owns_all_kept(bm, a, b, own, rr);
        let r3 = next.pins().retired();
        assert forall|x: int| #[trigger] is_elsewhere(bm, b, tt, r3, x) implies is_elsewhere(
            bm,
            a,
            ss,
            rr,
            x,
        ) by {
            if own.contains(o) {
                bm.lemma_allocated_back(a, b, o, x);
            } else if self.pins().front_pinned() {
                lemma_cells_push(rr, s);
            }
        }
        if self.pins().front_pinned() {
            lemma_cells_push(rr, s);
            let r2 = rr.push(s);
            assert(owns_all(bm, b, r2)) by {
                assert forall|i: int| 0 <= i < r2.len() implies bm.owns(b, #[trigger] r2[i])
                    && r2[i].wf(b) by {
                    if i < rr.len() {
                        assert(r2[i] == rr[i]);
                    }
                }
                assert forall|i: int, j: int|
                    0 <= i < j < r2.len() && (#[trigger] r2[i]).is_from_shm && (
                    #[trigger] r2[j]).is_from_shm implies r2[i].offset_in_shm
                    != r2[j].offset_in_shm by {
                    assert(r2[i] == rr[i]);
                    if j < rr.len() {
                        assert(r2[j] == rr[j]);
                    } else {
                        assert(cell_at(rr, i, rr[i].offset_in_shm as int));
                        assert(cells(rr).contains(rr[i].offset_in_shm as int));
                        assert(cells(ss).contains(o));
                    }
                }
            }
        }
        match self.write_pos() {
            Some(w) => {
                assert forall|k: int| w <= k < tt.len() implies (#[trigger] tt[k]).read_index
                    == tt[k].write_index by {
                    assert(tt[k] == ss[k + 1]);
                }
            },
            None => {
                assert forall|k: int| 0 <= k < tt.len() implies (#[trigger] tt[k]).read_index
                    == tt[k].write_index by {
                    assert(tt[k] == ss[k + 1]);
                }
            },
        }
        if self.from_shm() {
            assert forall|i: int| 0 <= i < tt.len() implies (#[trigger] tt[i]).is_from_shm by {
                assert(tt[i] == ss[i + 1]);
            }
        }
    }

    /// Gives up the first slice.
    fn read_next_slice(&mut self, bm: &BufferManager, mem: &mut [u8])
        requires
            old(self).wf_slices(*bm, old(mem)@),
            old(self).slices().len() > 0,
        ensures
            old(self).lost_front(*bm, old(mem)@, *final(self), final(mem)@),
            final(self).wf_slices(*bm, final(mem)@),
            final(mem)@.len() == old(mem)@.len(),
            old(self).evolves(*bm, old(mem)@, *final(self), final(mem)@),
            final(self).content(final(mem)@) == content(old(self).slices().skip(1), old(mem)@),
            final(self).spec_len() == old(self).spec_len(),
            forall|i: int|
                0 <= i < final(self).slices().len() ==> (#[trigger] final(self).slices()[i]).bytes(
                    final(mem)@,
                ) == final(self).slices()[i].bytes(old(mem)@),
    {
        let ghost s0 = *self;
        let ghost m0 = mem@;
        match self.slice_list.pop_front() {
            Some(slice) => {
                assert(bm.owns(m0, s0.slices()[0]));
                self.pin_registry.retire(bm, mem, slice);
            },
            None => {},
        }
        proof {
            s0.lemma_lost_front(*bm, m0, *self, mem@);
        }
    }

    /// The first slice with something to read, counted from slice `i` on.
    pub open spec fn first_unread(self, i: int) -> int
        decreases self.slices().len() - i,
    {
        if i >= self.slices().len() || self.slices()[i].read_index < self.slices()[i].write_index {
            i
        } else {
            self.first_unread(i + 1)
        }
    }

    proof fn lemma_first_unread_skip(self, next: Self, i: int)
        requires
            self.slices().len() > 0,
            next.slices() == self.slices().skip(1),
            i >= 1,
        ensures
            next.first_unread(i - 1) == self.first_unread(i) - 1,
        decreases self.slices().len() - i,
    {
        if i < self.slices().len() {
            assert(next.slices()[i - 1] == self.slices()[i]);
            if self.slices()[i].read_index == self.slices()[i].write_index
                || self.slices()[i].read_index > self.slices()[i].write_index {
                self.lemma_first_unread_skip(next, i + 1);
            }
        }
    }

    /// Gives up slices at the front that hold nothing to read.
    fn drop_empty_front(&mut self, bm: &BufferManager, mem: &mut [u8])
        requires
            old(self).wf_slices(*bm, old(mem)@),
        ensures
            final(self).wf_slices(*bm, final(mem)@),
            final(mem)@.len() == old(mem)@.len(),
            old(self).evolves(*bm, old(mem)@, *final(self), final(mem)@),
            final(self).content(final(mem)@) == old(self).content(old(mem)@),
            final(self).spec_len() == old(self).spec_len(),
            final(self).from_shm() == old(self).from_shm(),
            final(self).slices() == old(self).slices().skip(old(self).first_unread(0)),
            0 <= old(self).first_unread(0) <= old(self).slices().len(),
            old(self).took_out(
                *bm,
                old(mem)@,
                *final(self),
                final(mem)@,
                old(self).first_unread(0),
                0,
                None,
            ),
            final(self).slices().len() > 0 ==> ({
                let s = final(self).slices()[0];
                s.read_index < s.write_index
            }),
            old(self).can_pin() ==> final(self).can_pin(),
            forall|i: int|
                0 <= i < final(self).slices().len() ==> (#[trigger] final(self).slices()[i]).bytes(
                    final(mem)@,
                ) == final(self).slices()[i].bytes(old(mem)@),
    {
        let ghost s0 = *self;
        let ghost m0 = mem@;
        let ghost mut g: int = 0;
        proof {
            self.lemma_evolves_refl(*bm, m0);
            assert(self.slices() =~= s0.slices().skip(0));
            self.lemma_took_nothing(*bm, m0);
        }
        loop
            invariant
                self.wf_slices(*bm, mem@),
                mem@.len() == m0.len(),
                s0.evolves(*bm, m0, *self, mem@),
                self.content(mem@) == s0.content(m0),
                self.spec_len() == s0.spec_len(),
                self.from_shm() == s0.from_shm(),
                0 <= g <= s0.slices().len(),
                self.slices() == s0.slices().skip(g),
                s0.first_unread(0) == s0.first_unread(g),
                s0.took_out(*bm, m0, *self, mem@, g, 0, None),
                s0.can_pin() ==> self.can_pin(),
                forall|i: int|
                    0 <= i < self.slices().len() ==> (#[trigger] self.slices()[i]).bytes(mem@)
                        == self.slices()[i].bytes(m0),
            ensures
                g == s0.first_unread(0),
                g < s0.slices().len() ==> s0.slices()[g].read_index < s0.slices()[g].write_index,
            decreases s0.slices().len() - g,
        {
            let ghost s1 = *self;
            let ghost m1 = mem@;
            let empty: bool = match self.slice_list.front() {
                Some(s) => {
                    assert(self.slices()[0].wf(mem@));
                    s.size() == 0
                },
                None => false,
            };
            if !empty {
                proof {
                    if g < s0.slices().len() {
                        assert(self.slices()[0] == s0.slices()[g]);
                        assert(self.slices()[0].wf(mem@));
                    }
                }
                break;
            }
            proof {
                assert(self.slices()[0] == s0.slices()[g]);
                assert(self.slices()[0].wf(mem@));
                lemma_content_front(self.slices(), m1);
                assert(self.slices()[0].unread(m1) =~= Seq::<u8>::empty());
                assert(Seq::<u8>::empty() + content(self.slices().skip(1), m1) =~= content(
                    self.slices().skip(1),
                    m1,
                ));
            }
            self.read_next_slice(bm, mem);
            proof {
                s0.lemma_evolves_trans(*bm, m0, s1, m1, *self, mem@);
                s0.lemma_took_slice(*bm, m0, s1, m1, *self, mem@, g, 0);
                assert(s0.slices().skip(g).skip(1) =~= s0.slices().skip(g + 1));
                assert forall|i: int| 0 <= i < self.slices().len() implies (
                #[trigger] self.slices()[i]).bytes(mem@) == self.slices()[i].bytes(m0) by {
                    assert(self.slices()[i] == s1.slices()[i + 1]);
                }
                g = g + 1;
            }
        }
    }

    /// Bytes of the first slice were read.
    proof fn lemma_front_read(
        self,
        bm: BufferManager,
        m: Seq<u8>,
        next: Self,
        n: int,
    )
        requires
            self.wf_slices(bm, m),
            self.slices().len() > 0,
            0 <= n <= self.slices()[0].unread(m).len(),
            ({
                let s = self.slices()[0];
                let t = next.slices()[0];
                &&& next.slices() == self.slices().update(0, t)
                &&& t == (BufferSlice { read_index: (s.read_index + n) as usize, ..s })
            }),
            next.write_pos() == self.write_pos(),
            next.from_shm() == self.from_shm(),
            next.pins().wf(),
            next.pins().retired() == self.pins().retired(),
        ensures
            next.wf_slices(bm, m),
            self.evolves(bm, m, next, m),
            next.content(m) == self.content(m).skip(n),
            self.slices()[0].unread(m).take(n) == self.content(m).take(n),
    {
        let ss = self.slices();
        let tt = next.slices();
        let s = ss[0];
        let t = tt[0];
        assert(s.wf(m));
        assert(t.unread(m) =~= s.unread(m).skip(n));
        lemma_content_front(ss, m);
        lemma_content_front(tt, m);
        assert(tt.skip(1) =~= ss.skip(1));
        assert(next.content(m) =~= self.content(m).skip(n));
        assert(s.unread(m).take(n) =~= self.content(m).take(n));
        lemma_cells_same(ss, tt);
        assert(owns_all(bm, m, tt)) by {
            assert forall|i: int| 0 <= i < tt.len() implies bm.owns(m, #[trigger] tt[i])
                && tt[i].wf(m) by {
                assert(bm.owns(m, ss[i]) && ss[i].wf(m));
            }
            assert forall|i: int, j: int|
                0 <= i < j < tt.len() && (#[trigger] tt[i]).is_from_shm && (
                #[trigger] tt[j]).is_from_shm implies tt[i].offset_in_shm
                != tt[j].offset_in_shm by {
                assert(ss[i].offset_in_shm != ss[j].offset_in_shm);
            }
        }
        match self.write_pos() {
            Some(w) => {
                assert forall|k: int| w + 1 <= k < tt.len() implies (#[trigger] tt[k]).read_index
                    == tt[k].write_index by {
                    assert(tt[k] == ss[k]);
                }
            },
            None => {
                assert(ss[0].read_index == ss[0].write_index);
                assert forall|k: int| 0 <= k < tt.len() implies (#[trigger] tt[k]).read_index
                    == tt[k].write_index by {
                    assert(ss[k].read_index == ss[k].write_index);
                }
            },
        }
        if self.from_shm() {
            assert forall|i: int| 0 <= i < tt.len() implies (#[trigger] tt[i]).is_from_shm by {
                assert(ss[i].is_from_shm);
            }
        }
        assert(self.evolves(bm, m, next, m)) by {
            reveal(BufferManager::keeps);
        }
    }

    /// Hands out, in place, what the first slice with something to read holds.
    pub fn read_chunk<'a>(&'a mut self, bm: &BufferManager, mem: &'a mut [u8]) -> (r: Result<
        Buf<'a>,
        Error,
    >)
        requires
            old(self).wf(*bm, old(mem)@),
            old(self).content(old(mem)@).len() > 0 ==> old(self).can_pin(),
        ensures
            final(self).wf(*bm, final(mem)@),
            final(mem)@.len() == old(mem)@.len(),
            old(self).evolves(*bm, old(mem)@, *final(self), final(mem)@),
            r is Ok <==> old(self).content(old(mem)@).len() > 0,
            match r {
                Err(e) => {
                    &&& e == Error::NotEnoughData
                    &&& final(self).slices().len() == 0
                    &&& final(self).content(final(mem)@).len() == 0
                    &&& final(self).write_pos() is None
                    &&& old(self).took_out(
                        *bm,
                        old(mem)@,
                        *final(self),
                        final(mem)@,
                        old(self).slices().len() as int,
                        0,
                        None,
                    )
                },
                Ok(b) => {
                    let k = old(self).first_unread(0);
                    &&& b is Shm
                    &&& 0 <= k < old(self).slices().len()
                    &&& b.content().len() > 0
                    &&& b.content() == old(self).slices()[k].unread(old(mem)@)
                    &&& old(self).content(old(mem)@) == b.content() + final(self).content(
                        final(mem)@,
                    )
                    &&& old(self).took_out(
                        *bm,
                        old(mem)@,
                        *final(self),
                        final(mem)@,
                        k,
                        b.content().len() as int,
                        taking::pin_of(b),
                    )
                    &&& final(self).pins().front_pinned()
                },
            },
    {
        let ghost s0 = *self;
        let ghost m0 = mem@;
        self.drop_empty_front(bm, mem);
        let ghost s1 = *self;
        let ghost m1 = mem@;
        let size: usize = match self.slice_list.front() {
            Some(s) => {
                assert(self.slices()[0].wf(mem@));
                s.size()
            },
            None => {
                assert(self.slices() =~= Seq::<BufferSlice>::empty());
                return Err(Error::NotEnoughData);
            },
        };
        proof {
            lemma_content_len(self.slices(), mem@, 0);
        }
        proof {
            let front = s1.slices()[0];
            let k = s0.first_unread(0);
            assert(front == s0.slices()[k]);
            assert(front.bytes(m1) == front.bytes(m0));
            assert(front.unread(m1).take(size as int) =~= front.unread(m1));
            assert(s1.content(m1) =~= s1.content(m1).take(size as int) + s1.content(m1).skip(
                size as int,
            ));
        }
        let lease = self.pin_registry.acquire();
        let ghost s2 = *self;
        let at: usize = self.consume_front(bm, mem, size);
        proof {
            s0.lemma_evolves_trans(*bm, m0, s1, m1, *self, mem@);
            let k = s0.first_unread(0);
            let pin = Some((lease.id(), 1int));
            s0.lemma_took_pin(*bm, m0, s1, m1, s2, k, 0, lease.id(), 1);
            s0.lemma_took_more(*bm, m0, s2, m1, *self, k, 0, size as int, pin);
        }
        let shm: &'a [u8] = mem;
        let this: &'a Self = self;
        Ok(Buf::Shm(ShmBuf::new(this.slice_list.get(0).range(shm, at, size), lease)))
    }

    /// Counts `size` bytes of the first slice as read; tells where in the slice they stand.
    fn consume_front(&mut self, bm: &BufferManager, mem: &[u8], size: usize) -> (at: usize)
        requires
            old(self).wf(*bm, mem@),
            old(self).slices().len() > 0,
            size <= old(self).slices()[0].unread(mem@).len(),
        ensures
            final(self).wf(*bm, mem@),
            old(self).evolves(*bm, mem@, *final(self), mem@),
            final(self).content(mem@) == old(self).content(mem@).skip(size as int),
            final(self).pins() == old(self).pins(),
            final(self).write_pos() == old(self).write_pos(),
            final(self).from_shm() == old(self).from_shm(),
            ({
                let s = old(self).slices()[0];
                let t = final(self).slices()[0];
                &&& at == s.read_index
                &&& final(self).slices() == old(self).slices().update(0, t)
                &&& t == (BufferSlice { read_index: (s.read_index + size) as usize, ..s })
                &&& t.bytes(mem@).subrange(at as int, at + size) == old(self).content(mem@).take(
                    size as int,
                )
            }),
    {
        let ghost s0 = *self;
        proof {
            assert(self.slices()[0].wf(mem@));
            lemma_content_len(self.slices(), mem@, 0);
        }
        self.len = self.len - size;
        let slice = self.slice_list.get_mut(0);
        let at: usize = slice.read_index;
        let _ = slice.skip(size);
        proof {
            let s = s0.slices()[0];
            assert(self.slices() =~= s0.slices().update(0, self.slices()[0]));
            s0.lemma_front_read(*bm, mem@, *self, size as int);
            assert(s.unread(mem@).take(size as int) =~= s.bytes(mem@).subrange(
                at as int,
                at + size,
            ));
        }
        at
    }

    /// The front of the buffer, once a first slice without anything to read is gone, holds
    /// `size` bytes.
    pub open spec fn front_holds(self, size: int) -> bool {
        let ss = self.slices();
        let k = if ss.len() > 0 && ss[0].read_index == ss[0].write_index {
            1int
        } else {
            0
        };
        k < ss.len() && ss[k].write_index - ss[k].read_index >= size
    }

    /// Takes out exactly `size` bytes: in place if the front holds them all, else gathered.
    pub fn read_exact_bytes<'a>(
        &'a mut self,
        bm: &BufferManager,
        mem: &'a mut [u8],
        size: usize,
    ) -> (r: Result<Buf<'a>, Error>)
        requires
            old(self).wf(*bm, old(mem)@),
            0 < size <= old(self).content(old(mem)@).len() ==> old(self).can_pin() && size
                <= isize::MAX,
        ensures
            final(self).wf(*bm, final(mem)@),
            final(mem)@.len() == old(mem)@.len(),
            old(self).evolves(*bm, old(mem)@, *final(self), final(mem)@),
            r is Ok <==> size <= old(self).content(old(mem)@).len(),
            match r {
                Err(e) => {
                    &&& e == Error::NotEnoughData
                    &&& *final(self) == *old(self)
                    &&& final(mem)@ == old(mem)@
                },
                Ok(b) => {
                    &&& b.content() == old(self).content(old(mem)@).take(size as int)
                    &&& final(self).content(final(mem)@) == old(self).content(old(mem)@).skip(
                        size as int,
                    )
                    &&& b is Shm <==> size > 0 && old(self).front_holds(size as int)
                    &&& old(self).gave_out(
                        *bm,
                        old(mem)@,
                        *final(self),
                        final(mem)@,
                        size as int,
                        taking::pin_of(b),
                    )
                    &&& b is Shm ==> final(self).pins().front_pinned()
                },
            },
            size == 0 ==> *final(self) == *old(self) && final(mem)@ == old(mem)@,
    {
        let ghost s0 = *self;
        let ghost m0 = mem@;
        proof {
            self.lemma_evolves_refl(*bm, m0);
            self.lemma_took_nothing(*bm, m0);
        }
        if size == 0 {
            proof {
                if self.slices().len() > 0 {
                    assert(self.slices()[0].wf(m0));
                }
            }
            assert(self.content(m0).take(0) =~= Seq::<u8>::empty());
            assert(self.content(m0).skip(0) =~= self.content(m0));
            return Ok(Buf::Exm(outside::bytes_new()));
        }
        if self.len < size {
            return Err(Error::NotEnoughData);
        }
        let empty: bool = match self.slice_list.front() {
            Some(s) => {
                assert(self.slices()[0].wf(mem@));
                s.size() == 0
            },
            None => false,
        };
        if empty {
            proof {
                lemma_content_front(self.slices(), m0);
                assert(self.slices()[0].wf(m0));
                assert(self.slices()[0].unread(m0) =~= Seq::<u8>::empty());
                assert(Seq::<u8>::empty() + content(self.slices().skip(1), m0) =~= content(
                    self.slices().skip(1),
                    m0,
                ));
            }
            self.read_next_slice(bm, mem);
            proof {
                s0.lemma_took_slice(*bm, m0, s0, m0, *self, mem@, 0, 0);
            }
        }
        let ghost g: int = if empty {
            1
        } else {
            0
        };
        let ghost s1 = *self;
        let ghost m1 = mem@;
        assert(s1.slices() =~= s0.slices().skip(g));
        proof {
            assert(self.content(mem@) == s0.content(m0));
            if empty {
                assert(s1.slices().len() > 0 ==> s1.slices()[0] == s0.slices()[1]);
            }
        }
        let enough: bool = match self.slice_list.front() {
            Some(s) => {
                assert(self.slices()[0].wf(mem@));
                s.size() >= size
            },
            None => false,
        };
        if enough {
            let lease = self.pin_registry.acquire();
            let ghost s2 = *self;
            let at: usize = self.consume_front(bm, mem, size);
            proof {
                s0.lemma_evolves_trans(*bm, m0, s1, m1, *self, mem@);
                let pin = Some((lease.id(), 1int));
                s0.lemma_took_pin(*bm, m0, s1, m1, s2, g, 0, lease.id(), 1);
                s0.lemma_took_more(*bm, m0, s2, m1, *self, g, 0, size as int, pin);
                taking::lemma_spent_skip(s0.slices(), g, size as int);
            }
            let shm: &'a [u8] = mem;
            let this: &'a Self = self;
            return Ok(Buf::Shm(ShmBuf::new(this.slice_list.get(0).range(shm, at, size), lease)));
        }
        let result = self.gather(bm, mem, size);
        proof {
            s0.lemma_evolves_trans(*bm, m0, s1, m1, *self, mem@);
            let s = taking::spent(s1.slices(), size as int);
            s0.lemma_took_trans(*bm, m0, s1, m1, *self, mem@, g, s.0, s.1, None);
            taking::lemma_spent_skip(s0.slices(), g, size as int);
        }
        Ok(Buf::Exm(result))
    }

    /// Takes out exactly `size` bytes, gathered from as many slices as it takes.
    #[verifier::spinoff_prover]
    #[verifier::rlimit(40)]
    fn gather(&mut self, bm: &BufferManager, mem: &mut [u8], size: usize) -> (r: bytes::Bytes)
        requires
            old(self).wf(*bm, old(mem)@),
            0 < size <= old(self).content(old(mem)@).len(),
            size <= isize::MAX,
        ensures
            final(self).wf(*bm, final(mem)@),
            final(mem)@.len() == old(mem)@.len(),
            old(self).evolves(*bm, old(mem)@, *final(self), final(mem)@),
            final(self).from_shm() == old(self).from_shm(),
            outside::bytes_content(r) == old(self).content(old(mem)@).take(size as int),
            final(self).content(final(mem)@) == old(self).content(old(mem)@).skip(size as int),
            old(self).gave_out(*bm, old(mem)@, *final(self), final(mem)@, size as int, None),
    {
        let ghost s0 = *self;
        let ghost m0 = mem@;
        let ghost c0 = self.content(mem@);
        let ghost goal = taking::spent(s0.slices(), size as int);
        let ghost mut g: int = 0;
        let mut result = outside::bytes_mut_with_capacity(size);
        let mut left: usize = size;
        proof {
            self.lemma_evolves_refl(*bm, m0);
            self.lemma_took_nothing(*bm, m0);
            assert(c0.take(0) =~= Seq::<u8>::empty());
            assert(c0.skip(0) =~= c0);
        }
        while left > 0
            invariant
                self.wf(*bm, mem@),
                mem@.len() == m0.len(),
                s0.evolves(*bm, m0, *self, mem@),
                self.from_shm() == s0.from_shm(),
                0 <= left <= size,
                size <= c0.len(),
                size <= isize::MAX,
                outside::bytes_mut_content(result) == c0.take(size - left),
                outside::bytes_mut_capacity(result) == size,
                self.content(mem@) == c0.skip(size - left),
                s0.wf_slices(*bm, m0),
                goal == taking::spent(s0.slices(), size as int),
                left > 0 ==> s0.took_out(*bm, m0, *self, mem@, g, 0, None),
                left > 0 ==> ({
                    let s = taking::spent(self.slices(), left as int);
                    goal == (g + s.0, s.1)
                }),
                left == 0 ==> s0.took_out(*bm, m0, *self, mem@, goal.0, goal.1, None),
            decreases left, self.slices().len(),
        {
            let ghost s1 = *self;
            let ghost m1 = mem@;
            proof {
                if self.slices().len() == 0 {
                    assert(self.content(mem@).len() == 0);
                    assert(c0.skip(size - left).len() == c0.len() - (size - left));
                }
                assert(self.slices()[0].wf(mem@));
            }
            let unread: usize = self.slice_list.get(0).size();
            let n: usize = if left <= unread {
                left
            } else {
                unread
            };
            let at: usize = self.consume_front(bm, mem, n);
            let ghost s2 = *self;
            outside::bytes_mut_extend_from_slice(
                &mut result,
                self.slice_list.get(0).range(mem, at, n),
            );
            proof {
                s0.lemma_evolves_trans(*bm, m0, s1, m1, s2, m1);
                assert(taking::read_on(s0.slices().skip(g), 0) =~= s0.slices().skip(g));
                assert(s1.slices()[0] == s0.slices()[g]);
                s0.lemma_took_more(*bm, m0, s1, m1, s2, g, 0, n as int, None);
                let done = size - left;
                assert(c0.take(done) + c0.skip(done).take(n as int) =~= c0.take(done + n));
                assert(c0.skip(done).skip(n as int) =~= c0.skip(done + n));
            }
            if n != left {
                proof {
                    lemma_content_front(self.slices(), m1);
                    assert(self.slices()[0].wf(m1));
                    assert(self.slices()[0].unread(m1) =~= Seq::<u8>::empty());
                    assert(Seq::<u8>::empty() + content(self.slices().skip(1), m1) =~= content(
                        self.slices().skip(1),
                        m1,
                    ));
                }
                self.read_next_slice(bm, mem);
                proof {
                    s0.lemma_evolves_trans(*bm, m0, s2, m1, *self, mem@);
                    s0.lemma_took_slice(*bm, m0, s2, m1, *self, mem@, g, n as int);
                    assert(self.slices() =~= s1.slices().skip(1));
                    g = g + 1;
                }
            }
            left = left - n;
        }
        outside::bytes_mut_freeze(result)
    }

    /// What a look at the next bytes does to the pins: what is handed out in place takes one. Bytes
    /// that were gathered take none, though the first slice has a name from then on.
    pub open spec fn peek_pin(self, next: Self, b: Buf) -> Option<(int, int)> {
        match b {
            Buf::Shm(s) => Some((s.lease().id(), 1)),
            Buf::Exm(_) => if b.content().len() == 0 {
                None
            } else {
                Some((next.pins().front()->0, 0))
            },
        }
    }

    /// The next `size` bytes, which stay unread: in place if the first slice holds them all, else
    /// gathered.
    pub fn peek<'a>(&'a mut self, bm: &BufferManager, mem: &'a [u8], size: usize) -> (r: Result<
        Buf<'a>,
        Error,
    >)
        requires
            old(self).wf(*bm, mem@),
            0 < size <= old(self).content(mem@).len() ==> old(self).can_pin() && size <= isize::MAX,
        ensures
            final(self).wf(*bm, mem@),
            final(self).slices() == old(self).slices(),
            final(self).write_pos() == old(self).write_pos(),
            final(self).from_shm() == old(self).from_shm(),
            final(self).spec_len() == old(self).spec_len(),
            final(self).pins().retired() == old(self).pins().retired(),
            old(self).evolves(*bm, mem@, *final(self), mem@),
            r is Ok <==> size <= old(self).content(mem@).len(),
            match r {
                Err(e) => e == Error::NotEnoughData && *final(self) == *old(self),
                Ok(b) => {
                    &&& b.content() == old(self).content(mem@).take(size as int)
                    &&& b is Shm <==> size > 0 && old(self).slices()[0].write_index - old(
                        self,
                    ).slices()[0].read_index >= size
                    &&& old(self).gave_out(
                        *bm,
                        mem@,
                        *final(self),
                        mem@,
                        0,
                        old(self).peek_pin(*final(self), b),
                    )
                    &&& b is Shm ==> final(self).pins().front_pinned()
                },
            },
            size == 0 ==> *final(self) == *old(self),
    {
        let ghost s0 = *self;
        proof {
            self.lemma_evolves_refl(*bm, mem@);
            self.lemma_took_nothing(*bm, mem@);
            if self.slices().len() > 0 {
                assert(self.slices()[0].wf(mem@));
            }
        }
        if size == 0 {
            assert(self.content(mem@).take(0) =~= Seq::<u8>::empty());
            return Ok(Buf::Exm(outside::bytes_new()));
        }
        if self.len < size {
            return Err(Error::NotEnoughData);
        }
        proof {
            if self.slices().len() == 0 {
                assert(self.content(mem@).len() == 0);
            }
            assert(self.slices()[0].wf(mem@));
            lemma_content_front(self.slices(), mem@);
        }
        let lease = self.pin_registry.acquire();
        let ghost id = lease.id();
        proof {
            s0.lemma_took_pin(*bm, mem@, s0, mem@, *self, 0, 0, id, 1);
        }
        if self.slice_list.get(0).size() >= size {
            let this: &'a Self = self;
            let bytes = this.slice_list.get(0).peek(mem, size);
            assert(bytes@ =~= s0.content(mem@).take(size as int));
            return Ok(Buf::Shm(ShmBuf::new(bytes, lease)));
        }
        self.pin_registry.unpin(lease);
        proof {
            let q = self.pins();
            let p = s0.pins();
            assert(q.leases() =~= if id < p.leases().len() {
                p.leases().update(id, (p.leases()[id] + 0) as usize)
            } else {
                p.leases().push(0)
            });
            s0.lemma_took_pin(*bm, mem@, s0, mem@, *self, 0, 0, id, 0);
        }
        let mut result = outside::bytes_mut_with_capacity(size);
        let n: usize = self.slice_list.size();
        let mut left: usize = size;
        let mut i: usize = 0;
        let ghost c = self.content(mem@);
        proof {
            assert(self.slices().skip(0) =~= self.slices());
            assert(c.take(0) =~= Seq::<u8>::empty());
            assert(c.skip(0) =~= c);
        }
        while left > 0 && i < n
            invariant
                n == self.slices().len(),
                self.slices() == s0.slices(),
                s0.wf(*bm, mem@),
                0 <= i <= n,
                0 <= left <= size,
                size <= c.len(),
                size <= isize::MAX,
                outside::bytes_mut_content(result) == c.take(size - left),
                outside::bytes_mut_capacity(result) == size,
                left > 0 ==> content(self.slices().skip(i as int), mem@) == c.skip(size - left),
            decreases n - i,
        {
            proof {
                let rest = self.slices().skip(i as int);
                lemma_content_front(rest, mem@);
                assert(rest[0] == self.slices()[i as int]);
                assert(s0.slices()[i as int].wf(mem@));
                assert(rest.skip(1) =~= self.slices().skip(i + 1));
            }
            let bytes = self.slice_list.get(i).peek(mem, left);
            outside::bytes_mut_extend_from_slice(&mut result, bytes);
            let k: usize = bytes.len();
            proof {
                let done = size - left;
                let rest = self.slices().skip(i as int);
                let u = rest[0].unread(mem@);
                assert(c.skip(done) == u + content(rest.skip(1), mem@));
                assert(bytes@ =~= c.skip(done).take(k as int));
                assert(c.take(done) + c.skip(done).take(k as int) =~= c.take(done + k));
                if k < left {
                    assert(k == u.len());
                    assert(content(rest.skip(1), mem@) =~= c.skip(done).skip(k as int));
                    assert(c.skip(done).skip(k as int) =~= c.skip(done + k));
                }
            }
            left = left - k;
            i += 1;
        }
        proof {
            if left > 0 {
                assert(self.slices().skip(i as int) =~= Seq::<BufferSlice>::empty());
                assert(content(Seq::<BufferSlice>::empty(), mem@).len() == 0);
                assert(c.skip(size - left).len() == c.len() - (size - left));
            }
        }
        Ok(Buf::Exm(outside::bytes_mut_freeze(result)))
    }

    /// Drops `size` bytes.
    pub fn discard(&mut self, bm: &BufferManager, mem: &mut [u8], size: usize) -> (r: Result<
        usize,
        Error,
    >)
        requires
            old(self).wf(*bm, old(mem)@),
            size > 0 || old(self).slices().len() > 0,
        ensures
            final(self).wf(*bm, final(mem)@),
            final(mem)@.len() == old(mem)@.len(),
            old(self).evolves(*bm, old(mem)@, *final(self), final(mem)@),
            r == if size <= old(self).content(old(mem)@).len() {
                Ok::<usize, Error>(size)
            } else {
                Err(Error::NotEnoughData)
            },
            r is Ok ==> final(self).content(final(mem)@) == old(self).content(old(mem)@).skip(
                size as int,
            ),
            r is Ok ==> old(self).gave_out(
                *bm,
                old(mem)@,
                *final(self),
                final(mem)@,
                size as int,
                None,
            ),
            r is Err ==> *final(self) == *old(self) && final(mem)@ == old(mem)@,
    {
        let ghost s0 = *self;
        let ghost m0 = mem@;
        let ghost c0 = self.content(mem@);
        let ghost goal = taking::spent(s0.slices(), size as int);
        let ghost mut g: int = 0;
        proof {
            self.lemma_evolves_refl(*bm, m0);
            self.lemma_took_nothing(*bm, m0);
            assert(c0.skip(0) =~= c0);
        }
        if self.len < size {
            return Err(Error::NotEnoughData);
        }
        let mut left: usize = size;
        let mut n: usize = 0;
        loop
            invariant_except_break
                s0.took_out(*bm, m0, *self, mem@, g, 0, None),
                ({
                    let s = taking::spent(self.slices(), left as int);
                    goal == (g + s.0, s.1)
                }),
            invariant
                self.wf(*bm, mem@),
                s0.wf_slices(*bm, m0),
                mem@.len() == m0.len(),
                s0.evolves(*bm, m0, *self, mem@),
                0 <= left <= size,
                size <= c0.len(),
                n + left == size,
                left > 0 || self.slices().len() > 0,
                self.content(mem@) == c0.skip(size - left),
            ensures
                left == 0,
                s0.took_out(*bm, m0, *self, mem@, goal.0, goal.1, None),
            decreases left, self.slices().len(),
        {
            let ghost s1 = *self;
            let ghost m1 = mem@;
            proof {
                if self.slices().len() == 0 {
                    assert(self.content(mem@).len() == 0);
                    assert(c0.skip(size - left).len() == c0.len() - (size - left));
                }
                assert(self.slices()[0].wf(mem@));
            }
            let unread: usize = self.slice_list.get(0).size();
            let skip: usize = if left <= unread {
                left
            } else {
                unread
            };
            let _ = self.consume_front(bm, mem, skip);
            let ghost s2 = *self;
            proof {
                s0.lemma_evolves_trans(*bm, m0, s1, m1, s2, m1);
                assert(taking::read_on(s0.slices().skip(g), 0) =~= s0.slices().skip(g));
                assert(s1.slices()[0] == s0.slices()[g]);
                s0.lemma_took_more(*bm, m0, s1, m1, s2, g, 0, skip as int, None);
                assert(c0.skip(size - left).skip(skip as int) =~= c0.skip(size - left + skip));
            }
            n = n + skip;
            left = left - skip;
            if left == 0 {
                break;
            }
            proof {
                lemma_content_front(self.slices(), m1);
                assert(self.slices()[0].wf(m1));
                assert(self.slices()[0].unread(m1) =~= Seq::<u8>::empty());
                assert(Seq::<u8>::empty() + content(self.slices().skip(1), m1) =~= content(
                    self.slices().skip(1),
                    m1,
                ));
            }
            self.read_next_slice(bm, mem);
            proof {
                s0.lemma_evolves_trans(*bm, m0, s2, m1, *self, mem@);
                s0.lemma_took_slice(*bm, m0, s2, m1, *self, mem@, g, skip as int);
                assert(self.slices() =~= s1.slices().skip(1));
                g = g + 1;
            }
        }
        Ok(n)
    }

    /// Takes over a slice at the back. It takes the next write.
    pub fn append_buffer_slice(&mut self, bm: &BufferManager, mem: &[u8], slice: BufferSlice)
        requires
            old(self).wf(*bm, mem@),
            bm.owns(mem@, slice),
            slice.wf(mem@),
            slice.is_from_shm ==> {
                &&& !cells(old(self).slices()).contains(slice.offset_in_shm as int)
                &&& !cells(old(self).pins().retired()).contains(slice.offset_in_shm as int)
            },
            old(self).spec_len() + (slice.write_index - slice.read_index) <= usize::MAX,
        ensures
            final(self).wf(*bm, mem@),
            final(self).slices() == old(self).slices().push(slice),
            final(self).write_pos() == Some(old(self).slices().len() as int),
            final(self).from_shm() == (old(self).from_shm() && slice.is_from_shm),
            final(self).pins() == old(self).pins(),
            final(self).content(mem@) == old(self).content(mem@) + slice.unread(mem@),
    {
        let ghost s0 = *self;
        let ghost ss = self.slices();
        let ghost t = slice;
        if !slice.is_from_shm {
            self.is_from_shm = false;
        }
        self.len = self.len + slice.size();
        let n: usize = self.slice_list.size();
        self.slice_list.push_back(slice);
        self.slice_list.set_write_slice(Some(n));
        proof {
            let tt = self.slices();
            lemma_content_push(ss, t, mem@);
            lemma_cells_push(ss, t);
            assert(owns_all(*bm, mem@, tt)) by {
                assert forall|i: int| 0 <= i < tt.len() implies bm.owns(mem@, #[trigger] tt[i])
                    && tt[i].wf(mem@) by {
                    if i < ss.len() {
                        assert(tt[i] == ss[i]);
                    }
                }
                assert forall|i: int, j: int|
                    0 <= i < j < tt.len() && (#[trigger] tt[i]).is_from_shm && (
                    #[trigger] tt[j]).is_from_shm implies tt[i].offset_in_shm
                    != tt[j].offset_in_shm by {
                    assert(tt[i] == ss[i]);
                    if j < ss.len() {
                        assert(tt[j] == ss[j]);
                    } else {
                        assert(cell_at(ss, i, ss[i].offset_in_shm as int));
                        assert(cells(ss).contains(ss[i].offset_in_shm as int));
                    }
                }
            }
            if self.from_shm() {
                assert forall|i: int| 0 <= i < tt.len() implies (#[trigger] tt[i]).is_from_shm by {
                    if i < ss.len() {
                        assert(tt[i] == ss[i]);
                    }
                }
            }
        }
    }

    /// On the way from `self` in `a` to `next` in `b` the first slice was given up, if all of it was
    /// read and it was the one to be written to next. Else nothing changed.
    pub open spec fn released_read(
        self,
        bm: BufferManager,
        a: Seq<u8>,
        next: Self,
        b: Seq<u8>,
    ) -> bool {
        if self.slices().len() > 0 && self.slices()[0].read_index == self.slices()[0].write_index
            && self.write_pos() == Some(0int) {
            self.lost_front(bm, a, next, b)
        } else {
            next == self && b == a
        }
    }

    /// Gives up the first slice if all of it was read and it is the one to be written to next.
    pub fn release_previous_read(&mut self, bm: &BufferManager, mem: &mut [u8])
        requires
            old(self).wf(*bm, old(mem)@),
        ensures
            final(self).wf(*bm, final(mem)@),
            final(mem)@.len() == old(mem)@.len(),
            old(self).evolves(*bm, old(mem)@, *final(self), final(mem)@),
            final(self).content(final(mem)@) == old(self).content(old(mem)@),
            old(self).released_read(*bm, old(mem)@, *final(self), final(mem)@),
    {
        let ghost s0 = *self;
        let ghost m0 = mem@;
        proof {
            self.lemma_evolves_refl(*bm, m0);
        }
        if self.slice_list.size() == 0 {
            return;
        }
        assert(self.slices()[0].wf(mem@));
        let at_write: bool = match self.slice_list.write_slice() {
            Some(w) => w == 0,
            None => false,
        };
        if self.slice_list.get(0).size() == 0 && at_write {
            proof {
                lemma_content_front(self.slices(), m0);
                assert(self.slices()[0].unread(m0) =~= Seq::<u8>::empty());
                assert(Seq::<u8>::empty() + content(self.slices().skip(1), m0) =~= content(
                    self.slices().skip(1),
                    m0,
                ));
            }
            self.read_next_slice(bm, mem);
        }
    }

    /// On the way from `self` in `a` to `next` in `b` the one slice was emptied for the next write.
    pub open spec fn kept_for_writing(
        self,
        bm: BufferManager,
        a: Seq<u8>,
        next: Self,
        b: Seq<u8>,
    ) -> bool {
        let s = self.slices()[0];
        let o = s.offset_in_shm as int;
        &&& next.slices() == seq![(BufferSlice { read_index: 0, write_index: 0, ..s })]
        &&& next.write_pos() == self.write_pos()
        &&& next.from_shm() == self.from_shm()
        &&& next.spec_len() == 0
        &&& next.pins() == self.pins()
        &&& slice::header_size(b, o) == 0
        &&& slice::header_start(b, o) == 0
        &&& slice::flag_in_used(slice::header_flag(b, o))
        &&& !slice::flag_has_next(slice::header_flag(b, o))
        &&& bm.frees(b) == bm.frees(a)
        &&& bm.counters(b) == bm.counters(a)
        &&& bm.keeps(a, b, set![o])
    }

    /// Once all was read, keeps the one slice that is left for the next write, unless a pin on it
    /// is out or it is on the heap: then it is given up.
    pub fn release_previous_read_and_reserve(&mut self, bm: &BufferManager, mem: &mut [u8])
        requires
            old(self).wf(*bm, old(mem)@),
        ensures
            final(self).wf(*bm, final(mem)@),
            final(mem)@.len() == old(mem)@.len(),
            old(self).evolves(*bm, old(mem)@, *final(self), final(mem)@),
            final(self).content(final(mem)@) == old(self).content(old(mem)@),
            if old(self).spec_len() == 0 && old(self).slices().len() == 1 {
                let s = old(self).slices()[0];
                if s.is_from_shm && !old(self).pins().front_pinned() {
                    old(self).kept_for_writing(*bm, old(mem)@, *final(self), final(mem)@)
                } else {
                    old(self).lost_front(*bm, old(mem)@, *final(self), final(mem)@)
                }
            } else {
                *final(self) == *old(self) && final(mem)@ == old(mem)@
            },
    {
        let ghost s0 = *self;
        let ghost m0 = mem@;
        proof {
            self.lemma_evolves_refl(*bm, m0);
        }
        if self.len != 0 || self.slice_list.size() != 1 {
            return;
        }
        proof {
            lemma_content_front(self.slices(), m0);
            assert(self.slices()[0].wf(m0));
            assert(bm.owns(m0, self.slices()[0]));
            assert(self.slices().skip(1) =~= Seq::<BufferSlice>::empty());
            assert(self.slices()[0].unread(m0).len() == 0);
        }
        if self.pin_registry.is_pinned() || !self.slice_list.get(0).is_from_shm {
            self.read_next_slice(bm, mem);
            proof {
                assert(self.content(mem@) =~= s0.content(m0));
            }
            return;
        }
        let ghost s = self.slices()[0];
        let ghost o = s.offset_in_shm as int;
        proof {
            let k = choose|k: int| bm.in_use(m0, k, o);
            bm.lemma_in_use(m0, k, o);
        }
        self.slice_list.get_mut(0).reset_for_reuse(mem);
        proof {
            let t = self.slices()[0];
            lemma_reset_for_reuse(*bm, m0, mem@, s);
            assert(self.slices() =~= seq![t]);
            assert(s0.slices() =~= seq![s]);
            lemma_cells_same(s0.slices(), self.slices());
            assert(cell_at(s0.slices(), 0, o));
            assert(cells(s0.slices()).contains(o));
            bm.lemma_keeps_wider(m0, mem@, set![o], cells(s0.slices()));
            lemma_owns_all_kept(*bm, m0, mem@, cells(s0.slices()), s0.pins().retired());
            lemma_content_one(t, mem@);
            assert(t.unread(mem@) =~= Seq::<u8>::empty());
            assert(self.content(mem@) =~= s0.content(m0));
        }
    }

    /// Gives up every slice.
    pub fn recycle(&mut self, bm: &BufferManager, mem: &mut [u8])
        requires
            old(self).wf(*bm, old(mem)@),
        ensures
            final(self).wf(*bm, final(mem)@),
            final(mem)@.len() == old(mem)@.len(),
            old(self).evolves(*bm, old(mem)@, *final(self), final(mem)@),
            old(self).emptied(*final(self)),
            old(self).went_back(*bm, old(mem)@, final(mem)@),
            forall|i: int|
                0 <= i < old(self).slices().len() && (#[trigger] old(self).slices()[i]).is_from_shm
                    && !(i == 0 && old(self).pins().front_pinned()) ==> !bm.is_allocated(
                    final(mem)@,
                    old(self).slices()[i].offset_in_shm as int,
                ),
    {
        let ghost s0 = *self;
        let ghost m0 = mem@;
        let ghost from: int = if s0.waits() {
            1
        } else {
            0
        };
        let ghost mut g: int = 0;
        proof {
            self.lemma_evolves_refl(*bm, m0);
            assert(self.slices().skip(0) =~= self.slices());
            assert(bm.keeps(m0, m0, cells(self.free_to_go()))) by {
                reveal(BufferManager::keeps);
            }
        }
        while self.slice_list.size() > 0
            invariant
                self.wf_slices(*bm, mem@),
                s0.wf_slices(*bm, m0),
                mem@.len() == m0.len(),
                s0.evolves(*bm, m0, *self, mem@),
                0 <= g <= s0.slices().len(),
                self.slices() == s0.slices().skip(g),
                self.pins().leases() == s0.pins().leases(),
                g == 0 ==> self.pins() == s0.pins(),
                g > 0 ==> self.pins().front() is None,
                self.pins().retired() == if g > 0 && s0.pins().front_pinned() {
                    s0.pins().retired().push(s0.slices()[0])
                } else {
                    s0.pins().retired()
                },
                self.pins().retired_ids() == if g > 0 && s0.pins().front_pinned() {
                    s0.pins().retired_ids().push(s0.pins().front()->0)
                } else {
                    s0.pins().retired_ids()
                },
                forall|i: int|
                    0 <= i < g && (#[trigger] s0.slices()[i]).is_from_shm && !(i == 0
                        && s0.pins().front_pinned()) ==> !bm.is_allocated(
                        mem@,
                        s0.slices()[i].offset_in_shm as int,
                    ),
                from == (if s0.waits() {
                    1int
                } else {
                    0
                }),
                g == 0 ==> mem@ == m0,
                g > 0 ==> bm.frees(mem@) == taking::frees_with(
                    *bm,
                    bm.frees(m0),
                    s0.slices().subrange(from, g),
                ),
                g > 0 ==> bm.counters(mem@) == taking::counts_with(
                    *bm,
                    bm.counters(m0),
                    s0.slices().subrange(from, g),
                ),
                bm.keeps(m0, mem@, cells(s0.free_to_go())),
            decreases s0.slices().len() - g,
        {
            let ghost s1 = *self;
            let ghost m1 = mem@;
            self.read_next_slice(bm, mem);
            proof {
                s0.lemma_evolves_trans(*bm, m0, s1, m1, *self, mem@);
                assert(s0.slices().skip(g).skip(1) =~= s0.slices().skip(g + 1));
                assert(s1.slices()[0] == s0.slices()[g]);
                let part = s0.slices().subrange(from, g + 1);
                if mem@ != m1 {
                    let o = s1.slices()[0].offset_in_shm as int;
                    assert(cell_at(s0.free_to_go(), g - from, o));
                    bm.lemma_keeps_trans(m0, m1, mem@, cells(s0.free_to_go()), set![o]);
                }
                if g < from {
                    assert(part =~= Seq::<BufferSlice>::empty());
                } else {
                    assert(part.last() == s0.slices()[g]);
                    assert(part.drop_last() =~= s0.slices().subrange(from, g));
                    if g == 0 {
                        assert(part.drop_last() =~= Seq::<BufferSlice>::empty());
                        assert(taking::frees_with(*bm, bm.frees(m0), part.drop_last())
                            == bm.frees(m0));
                        assert(taking::counts_with(*bm, bm.counters(m0), part.drop_last())
                            == bm.counters(m0));
                    }
                }
                assert forall|i: int|
                    0 <= i < g + 1 && (#[trigger] s0.slices()[i]).is_from_shm && !(i == 0
                        && s0.pins().front_pinned()) implies !bm.is_allocated(
                    mem@,
                    s0.slices()[i].offset_in_shm as int,
                ) by {
                    let p = s0.slices()[i].offset_in_shm as int;
                    let s = s1.slices()[0];
                    if i < g && bm.is_allocated(mem@, p) && mem@ != m1 {
                        bm.lemma_allocated_back(
                            m1,
                            mem@,
                            s.offset_in_shm as int,
                            p,
                        );
                    }
                }
                g = g + 1;
            }
        }
        let ghost s1 = *self;
        proof {
            let ss = s0.slices();
            assert(ss.subrange(from, g) =~= s0.free_to_go());
        }
        self.slice_list.set_write_slice(None);
        self.is_from_shm = true;
        self.end_stream = false;
        self.len = 0;
        assert(self.slices() =~= Seq::<BufferSlice>::empty());
        assert(self.slices() =~= s1.slices());
    }

    /// Lets go of every slice without giving it back: its buffers now belong to the peer. A slice
    /// with pins out waits for them all the same.
    pub fn clean(&mut self, bm: &BufferManager, mem: &mut [u8])
        requires
            old(self).wf(*bm, old(mem)@),
        ensures
            final(self).wf(*bm, final(mem)@),
            final(mem)@ == old(mem)@,
            old(self).emptied(*final(self)),
    {
        let ghost s0 = *self;
        let ghost m0 = mem@;
        let ghost mut g: int = 0;
        proof {
            assert(self.slices().skip(0) =~= self.slices());
        }
        while self.slice_list.size() > 0
            invariant
                self.wf_slices(*bm, mem@),
                mem@ == m0,
                0 <= g <= s0.slices().len(),
                self.slices() == s0.slices().skip(g),
                self.pins().leases() == s0.pins().leases(),
                g == 0 ==> self.pins() == s0.pins(),
                g > 0 ==> self.pins().front() is None,
                self.pins().retired() == if g > 0 && s0.pins().front_pinned() {
                    s0.pins().retired().push(s0.slices()[0])
                } else {
                    s0.pins().retired()
                },
                self.pins().retired_ids() == if g > 0 && s0.pins().front_pinned() {
                    s0.pins().retired_ids().push(s0.pins().front()->0)
                } else {
                    s0.pins().retired_ids()
                },
            decreases s0.slices().len() - g,
        {
            let ghost s1 = *self;
            if self.pin_registry.is_pinned() {
                self.read_next_slice(bm, mem);
            } else {
                let _ = self.slice_list.pop_front();
                self.pin_registry.abandon();
                proof {
                    s1.lemma_abandoned_front(*bm, m0, *self);
                }
            }
            proof {
                assert(s0.slices().skip(g).skip(1) =~= s0.slices().skip(g + 1));
                assert(s1.slices()[0] == s0.slices()[g]);
                g = g + 1;
            }
        }
        self.slice_list.set_write_slice(None);
        self.is_from_shm = true;
        self.end_stream = false;
        self.len = 0;
        assert(self.slices() =~= Seq::<BufferSlice>::empty());
    }

    /// Without its first slice the buffer is in order.
    proof fn lemma_abandoned_front(self, bm: BufferManager, m: Seq<u8>, next: Self)
        requires
            self.wf_slices(bm, m),
            self.slices().len() > 0,
            next.slices() == self.slices().skip(1),
            next.write_pos() == match self.write_pos() {
                Some(w) if w > 0 => Some(w - 1),
                _ => None,
            },
            next.from_shm() == self.from_shm(),
            next.pins().wf(),
            next.pins().retired() == self.pins().retired(),
        ensures
            next.wf_slices(bm, m),
    {
        let ss = self.slices();
        let tt = next.slices();
        lemma_cells_front(ss);
        assert forall|i: int| 0 <= i < tt.len() implies bm.owns(m, #[trigger] tt[i])
            && tt[i].wf(m) by {
            assert(tt[i] == ss[i + 1]);
        }
        assert forall|i: int, j: int|
            0 <= i < j < tt.len() && (#[trigger] tt[i]).is_from_shm && (
            #[trigger] tt[j]).is_from_shm implies tt[i].offset_in_shm != tt[j].offset_in_shm by {
            assert(tt[i] == ss[i + 1] && tt[j] == ss[j + 1]);
        }
        match self.write_pos() {
            Some(w) => {
                assert forall|k: int| w <= k < tt.len() implies (#[trigger] tt[k]).read_index
                    == tt[k].write_index by {
                    assert(tt[k] == ss[k + 1]);
                }
            },
            None => {
                assert forall|k: int| 0 <= k < tt.len() implies (#[trigger] tt[k]).read_index
                    == tt[k].write_index by {
                    assert(tt[k] == ss[k + 1]);
                }
            },
        }
        if self.from_shm() {
            assert forall|i: int| 0 <= i < tt.len() implies (#[trigger] tt[i]).is_from_shm by {
                assert(tt[i] == ss[i + 1]);
            }
        }
    }

    /// Takes a pin back. If it was the last one on a slice that was given up, the slice goes
    /// back.
    pub fn release_lease(&mut self, bm: &BufferManager, mem: &mut [u8], lease: PinLease)
        requires
            old(self).wf(*bm, old(mem)@),
            0 <= lease.id() < old(self).pins().leases().len(),
            old(self).pins().leases()[lease.id()] > 0,
        ensures
            final(self).wf(*bm, final(mem)@),
            final(mem)@.len() == old(mem)@.len(),
            final(self).slices() == old(self).slices(),
            final(self).write_pos() == old(self).write_pos(),
            final(self).from_shm() == old(self).from_shm(),
            final(self).spec_len() == old(self).spec_len(),
            final(self).content(final(mem)@) == old(self).content(old(mem)@),
            bm.keeps(old(mem)@, final(mem)@, cells(old(self).pins().retired())),
            old(self).pins().unpinned(
                *bm,
                old(mem)@,
                final(self).pins(),
                final(mem)@,
                lease.id(),
            ),
    {
        let ghost s0 = *self;
        let ghost m0 = mem@;
        let ghost id = lease.id();
        self.pin_registry.release(bm, mem, lease);
        proof {
            let rr = s0.pins().retired();
            if s0.pins().leases()[id] > 1 || !s0.pins().retired_ids().contains(id) {
                assert(bm.keeps(m0, mem@, cells(rr))) by {
                    reveal(BufferManager::keeps);
                }
            } else {
                let k = s0.pins().retired_ids().index_of(id);
                let s = rr[k];
                let o = s.offset_in_shm as int;
                let tt = rr.remove(k);
                let own = if s.is_from_shm {
                    set![o]
                } else {
                    Set::empty()
                };
                assert(bm.keeps(m0, mem@, own)) by {
                    reveal(BufferManager::keeps);
                }
                if s.is_from_shm {
                    assert(cell_at(rr, k, o));
                    assert(cells(rr).contains(o));
                }
                bm.lemma_keeps_wider(m0, mem@, own, cells(rr));
                assert forall|i: int| 0 <= i < tt.len() implies #[trigger] tt[i] == rr[if i < k {
                    i
                } else {
                    i + 1
                }] by {}
                assert(owns_all(*bm, m0, tt)) by {
                    assert forall|i: int| 0 <= i < tt.len() implies bm.owns(m0, #[trigger] tt[i])
                        && tt[i].wf(m0) by {
                        let j = if i < k {
                            i
                        } else {
                            i + 1
                        };
                        assert(tt[i] == rr[j]);
                    }
                    assert forall|i: int, j: int|
                        0 <= i < j < tt.len() && (#[trigger] tt[i]).is_from_shm && (
                        #[trigger] tt[j]).is_from_shm implies tt[i].offset_in_shm
                        != tt[j].offset_in_shm by {
                        let x = if i < k {
                            i
                        } else {
                            i + 1
                        };
                        let y = if j < k {
                            j
                        } else {
                            j + 1
                        };
                        assert(tt[i] == rr[x] && tt[j] == rr[y]);
                    }
                }
                assert forall|p: int| #[trigger] cells(tt).contains(p) implies cells(rr).contains(
                    p,
                ) && !own.contains(p) by {
                    let i = choose|i: int| #[trigger] cell_at(tt, i, p);
                    let j = if i < k {
                        i
                    } else {
                        i + 1
                    };
                    assert(tt[i] == rr[j]);
                    assert(cell_at(rr, j, p));
                    if s.is_from_shm && p == o {
                        if j < k {
                            assert(rr[j].offset_in_shm != rr[k].offset_in_shm);
                        } else {
                            assert(rr[k].offset_in_shm != rr[j].offset_in_shm);
                        }
                    }
                }
                lemma_owns_all_kept(*bm, m0, mem@, own, tt);
                assert(cells(s0.slices()).disjoint(own)) by {
                    if s.is_from_shm {
                        assert(cells(rr).contains(o));
                    }
                }
                lemma_owns_all_kept(*bm, m0, mem@, own, s0.slices());
            }
        }
    }

    /// There is a slice for the next write, or one can be had for nothing.
    pub open spec fn can_begin(self, bm: BufferManager, m: Seq<u8>) -> bool {
        self.write_pos() is Some || self.slices().len() > 0 || bm.can_alloc(m, 0)
    }

    /// Makes room for `size` bytes in one slice, and counts them as written: in the slice that
    /// takes the next write, else in the one behind it, else in a new one. Tells in which slice
    /// and from where on.
    #[verifier::spinoff_prover]
    fn reserve_space(&mut self, bm: &BufferManager, mem: &mut [u8], size: usize) -> (r: (
        usize,
        usize,
    ))
        requires
            old(self).wf(*bm, old(mem)@),
            size <= u32::MAX,
            size > 0 || old(self).can_begin(*bm, old(mem)@),
            old(self).spec_len() + size <= usize::MAX,
        ensures
            final(self).wf(*bm, final(mem)@),
            final(mem)@.len() == old(mem)@.len(),
            old(self).evolves(*bm, old(mem)@, *final(self), final(mem)@),
            old(self).sendable(old(mem)@) ==> final(self).sendable(final(mem)@),
            final(self).write_pos() == Some(r.0 as int),
            final(self).pins() == old(self).pins(),
            bm.in_balance(old(mem)@) ==> bm.in_balance(final(mem)@),
            placement::reserved(
                *bm,
                bm.frees(old(mem)@),
                *old(self),
                bm.frees(final(mem)@),
                *final(self),
                size as int,
            ),
            ({
                let s = final(self).slices()[r.0 as int];
                &&& r.1 + size == s.write_index
                &&& s.read_index <= r.1
                &&& final(self).content(final(mem)@) == old(self).content(old(mem)@) + s.bytes(
                    final(mem)@,
                ).subrange(r.1 as int, r.1 + size)
            }),
    {
        let ghost s0 = *self;
        let ghost m0 = mem@;
        proof {
            self.lemma_evolves_refl(*bm, m0);
        }
        if self.slice_list.write_slice().is_none() {
            self.alloc_slices(bm, mem, size as u32);
            self.write_from_front();
        }
        let w: usize = match self.slice_list.write_slice() {
            Some(w) => w,
            None => 0,
        };
        let ghost s1 = *self;
        let ghost m1 = mem@;
        let ghost f0 = bm.frees(m0);
        let ghost f1 = bm.frees(m1);
        proof {
            if s0.write_pos() is None {
                assert(placement::begun(*bm, f0, s0, f1, s1, size as int));
            }
        }
        assert(self.slices()[w as int].wf(mem@));
        if self.slice_list.get(w).remain() >= size {
            let at: usize = self.bump(bm, mem, w, size);
            proof {
                s0.lemma_evolves_trans(*bm, m0, s1, m1, *self, mem@);
                placement::lemma_cut_here(*bm, f1, s1, *self, w as int, size as int);
            }
            return (w, at);
        }
        let n: usize = self.slice_list.size();
        if w + 1 < n {
            assert(self.slices()[w + 1].wf(mem@));
            if self.slice_list.get(w + 1).remain() >= size {
                self.slice_list.set_write_slice(Some(w + 1));
                proof {
                    Self::lemma_write_moved(s1, *bm, *self, mem@);
                }
                let ghost s2 = *self;
                let at: usize = self.bump(bm, mem, w + 1, size);
                proof {
                    s0.lemma_evolves_trans(*bm, m0, s2, m1, *self, mem@);
                    placement::lemma_cut_here(*bm, f1, s1, *self, w + 1, size as int);
                }
                return (w + 1, at);
            }
        }
        self.add_slice(bm, mem, size);
        let ghost s3 = *self;
        let ghost m3 = mem@;
        assert(self.slices()[n as int].wf(mem@));
        proof {
            s0.lemma_evolves_trans(*bm, m0, s1, m1, s3, m3);
        }
        let at: usize = self.bump(bm, mem, n, size);
        proof {
            s0.lemma_evolves_trans(*bm, m0, s3, m3, *self, mem@);
            placement::lemma_cut_behind(*bm, f1, s1, bm.frees(m3), s3, *self, size as int);
        }
        (n, at)
    }

    /// Adds one slice with room for `size` bytes, from the region or else from the heap. It takes
    /// the next write.
    fn add_slice(&mut self, bm: &BufferManager, mem: &mut [u8], size: usize)
        requires
            old(self).wf(*bm, old(mem)@),
            size <= u32::MAX,
        ensures
            final(self).wf(*bm, final(mem)@),
            final(mem)@.len() == old(mem)@.len(),
            old(self).evolves(*bm, old(mem)@, *final(self), final(mem)@),
            old(self).sendable(old(mem)@) ==> final(self).sendable(final(mem)@),
            final(self).slices().len() == old(self).slices().len() + 1,
            final(self).write_pos() == Some(old(self).slices().len() as int),
            final(self).content(final(mem)@) == old(self).content(old(mem)@),
            final(self).spec_len() == old(self).spec_len(),
            final(self).slices().last().is_fresh(),
            final(self).slices().last().cap >= size,
            final(self).slices().take(old(self).slices().len() as int) == old(self).slices(),
            final(self).pins() == old(self).pins(),
            bm.in_balance(old(mem)@) ==> bm.in_balance(final(mem)@),
            ({
                let s = final(self).slices().last();
                let f = bm.frees(old(mem)@);
                if placement::one_fits(*bm, f, size as int) {
                    let k = bm.first_fit(size as int, 0);
                    &&& placement::is_at(*bm, (k, f[k][0]), s)
                    &&& bm.frees(final(mem)@) == f.update(k, f[k].skip(1))
                    &&& final(self).from_shm() == old(self).from_shm()
                } else {
                    &&& !s.is_from_shm
                    &&& s.cap == if size < DEFAULT_SINGLE_BUFFER_SIZE {
                        DEFAULT_SINGLE_BUFFER_SIZE as int
                    } else {
                        size as int
                    }
                    &&& bm.frees(final(mem)@) == f
                    &&& !final(self).from_shm()
                }
            }),
    {
        let ghost s1 = *self;
        let ghost m1 = mem@;
        let n: usize = self.slice_list.size();
        match bm.alloc_shm_buffer(mem, size as u32) {
            Ok(buf) => {
                let ghost b = buf;
                self.slice_list.push_back(buf);
                proof {
                    if bm.in_balance(m1) {
                        bm.law_counts_follow_taking(m1, mem@, bm.first_fit(size as int, 0), b);
                    }
                    Self::lemma_one_more(s1, *bm, m1, *self, mem@, bm.first_fit(size as int, 0));
                }
            },
            Err(_) => {
                let heap: usize = if size < DEFAULT_SINGLE_BUFFER_SIZE as usize {
                    DEFAULT_SINGLE_BUFFER_SIZE as usize
                } else {
                    size
                };
                let v: Vec<u8> = vec![0u8; heap];
                self.slice_list.push_back(BufferSlice::new_heap(v));
                self.is_from_shm = false;
                assert(bm.keeps(m1, mem@, Set::empty())) by {
                    reveal(BufferManager::keeps);
                }
            },
        }
        let ghost s2 = *self;
        proof {
            assert(self.slices().take(n as int) =~= s1.slices());
            Self::lemma_extended(s1, *bm, m1, s2, mem@);
            Self::lemma_sendable_extended(s1, *bm, m1, s2, mem@);
        }
        self.slice_list.set_write_slice(Some(n));
        proof {
            Self::lemma_write_moved(s2, *bm, *self, mem@);
        }
    }

    /// Counts `size` bytes of slice `w` as written; tells from where on.
    fn bump(&mut self, bm: &BufferManager, mem: &[u8], w: usize, size: usize) -> (at: usize)
        requires
            old(self).wf(*bm, mem@),
            old(self).write_pos() == Some(w as int),
            old(self).slices()[w as int].write_index + size <= old(self).slices()[w as int].cap,
            old(self).spec_len() + size <= usize::MAX,
        ensures
            final(self).wf(*bm, mem@),
            final(self).write_pos() == Some(w as int),
            final(self).from_shm() == old(self).from_shm(),
            final(self).pins() == old(self).pins(),
            old(self).evolves(*bm, mem@, *final(self), mem@),
            old(self).sendable(mem@) ==> final(self).sendable(mem@),
            ({
                let s = final(self).slices()[w as int];
                &&& final(self).slices() == old(self).slices().update(w as int, s)
                &&& placement::same_buffer(s, old(self).slices()[w as int])
                &&& s.write_index == old(self).slices()[w as int].write_index + size
                &&& at + size == s.write_index
                &&& s.read_index <= at
                &&& final(self).content(mem@) == old(self).content(mem@) + s.bytes(
                    mem@,
                ).subrange(at as int, at + size)
            }),
    {
        let ghost s0 = *self;
        let ghost s = self.slices()[w as int];
        assert(s.wf(mem@) && bm.owns(mem@, s));
        let slice = self.slice_list.get_mut(w);
        let at: usize = slice.write_index;
        slice.write_index = at + size;
        self.len = self.len + size;
        proof {
            let t = self.slices()[w as int];
            let extra = t.bytes(mem@).subrange(at as int, at + size);
            assert(self.slices() =~= s0.slices().update(w as int, t));
            assert(t.unread(mem@) =~= s.unread(mem@) + extra);
            assert(bm.keeps(mem@, mem@, set![s.offset_in_shm as int])) by {
                reveal(BufferManager::keeps);
            }
            Self::lemma_written(s0, *bm, mem@, *self, mem@, w as int, extra);
            Self::lemma_sendable_written(s0, *bm, mem@, *self, mem@, w as int);
        }
        at
    }

    /// The last `d.len()` written bytes of a slice became `d`.
    proof fn lemma_slice_filled(
        s: BufferSlice,
        m1: Seq<u8>,
        t: BufferSlice,
        m2: Seq<u8>,
        d: Seq<u8>,
    )
        requires
            s.wf(m1),
            s.read_index <= s.write_index - d.len(),
            t == (BufferSlice { data: t.data, ..s }),
            match s.data {
                SliceData::Shm(p) => t == s && m2 == mem::put_bytes(
                    m1,
                    p + s.write_index - d.len(),
                    d,
                ),
                SliceData::Heap(v) => {
                    &&& m2 == m1
                    &&& t.data matches SliceData::Heap(u) && u@ == mem::put_bytes(
                        v@,
                        s.write_index - d.len(),
                        d,
                    )
                },
            },
        ensures
            t.wf(m2),
            m2.len() == m1.len(),
            s.unread(m1).len() == s.write_index - s.read_index,
            t.unread(m2) == s.unread(m1).take(s.unread(m1).len() - d.len()) + d,
    {
        broadcast use mem::group_mem;

        assert(t.unread(m2) =~= s.unread(m1).take(s.unread(m1).len() - d.len()) + d);
    }

    /// The last `d.len()` written bytes of the slice that takes the next write became `d`.
    proof fn lemma_filled(
        s1: Self,
        bm: BufferManager,
        m1: Seq<u8>,
        s2: Self,
        m2: Seq<u8>,
        w: int,
        d: Seq<u8>,
    )
        requires
            s1.wf(bm, m1),
            s1.write_pos() == Some(w),
            s2.write_pos() == Some(w),
            s2.pins() == s1.pins(),
            s2.from_shm() == s1.from_shm(),
            s2.spec_len() == s1.spec_len(),
            ({
                let s = s1.slices()[w];
                let t = s2.slices()[w];
                let at = s.write_index - d.len();
                &&& s2.slices() == s1.slices().update(w, t)
                &&& s.read_index <= at
                &&& t == (BufferSlice { data: t.data, ..s })
                &&& match s.data {
                    SliceData::Shm(p) => t == s && m2 == mem::put_bytes(m1, p + at, d),
                    SliceData::Heap(v) => {
                        &&& m2 == m1
                        &&& t.data matches SliceData::Heap(u) && u@ == mem::put_bytes(v@, at, d)
                    },
                }
            }),
        ensures
            s2.wf(bm, m2),
            s1.evolves(bm, m1, s2, m2),
            m1.len() == m2.len(),
            s2.content(m2) == s1.content(m1).take(s1.content(m1).len() - d.len()) + d,
            bm.frees(m2) == bm.frees(m1),
            bm.counters(m2) == bm.counters(m1),
    {
        broadcast use mem::group_mem;

        let s = s1.slices()[w];
        let t = s2.slices()[w];
        let at = s.write_index - d.len();
        assert(s.wf(m1) && bm.owns(m1, s));
        if s.is_from_shm {
            let o = s.offset_in_shm as int;
            let k = choose|k: int| bm.in_use(m1, k, o);
            bm.lemma_in_use(m1, k, o);
            bm.lemma_cell_written(m1, m2, o);
        }
        Self::lemma_slice_filled(s, m1, t, m2, d);
        Self::lemma_slice_replaced(s1, bm, m1, s2, m2, w);
        lemma_tail_replaced(
            content(s1.slices().take(w), m1),
            s.unread(m1),
            t.unread(m2),
            d,
        );
    }

    /// Filling the slice that takes the next write leaves the headers alone.
    proof fn lemma_filled_sendable(
        s1: Self,
        bm: BufferManager,
        m1: Seq<u8>,
        s2: Self,
        m2: Seq<u8>,
        w: int,
        d: Seq<u8>,
    )
        requires
            s1.wf(bm, m1),
            s1.write_pos() == Some(w),
            s2.write_pos() == Some(w),
            s2.pins() == s1.pins(),
            s2.from_shm() == s1.from_shm(),
            s2.spec_len() == s1.spec_len(),
            ({
                let s = s1.slices()[w];
                let t = s2.slices()[w];
                let at = s.write_index - d.len();
                &&& s2.slices() == s1.slices().update(w, t)
                &&& s.read_index <= at
                &&& t == (BufferSlice { data: t.data, ..s })
                &&& match s.data {
                    SliceData::Shm(p) => t == s && m2 == mem::put_bytes(m1, p + at, d),
                    SliceData::Heap(v) => {
                        &&& m2 == m1
                        &&& t.data matches SliceData::Heap(u) && u@ == mem::put_bytes(v@, at, d)
                    },
                }
            }),
        ensures
            s1.sendable(m1) ==> s2.sendable(m2),
    {
        broadcast use mem::group_mem;

        let s = s1.slices()[w];
        assert(s.wf(m1) && bm.owns(m1, s));
        if s.is_from_shm {
            let o = s.offset_in_shm as int;
            let k = choose|k: int| bm.in_use(m1, k, o);
            bm.lemma_in_use(m1, k, o);
            bm.lemma_cell_written(m1, m2, o);
        }
        Self::lemma_sendable_written(s1, bm, m1, s2, m2, w);
    }

    /// The region after `d` was put into slice `s` in front of its write position.
    spec fn filled_region(m: Seq<u8>, s: BufferSlice, d: Seq<u8>) -> Seq<u8> {
        match s.data {
            SliceData::Shm(p) => mem::put_bytes(m, p + s.write_index - d.len(), d),
            SliceData::Heap(_) => m,
        }
    }

    /// Room was made for `size` bytes, and `d` was put there.
    proof fn lemma_reserved(
        s0: Self,
        m0: Seq<u8>,
        bm: BufferManager,
        s1: Self,
        m1: Seq<u8>,
        s2: Self,
        w: int,
        size: int,
        d: Seq<u8>,
    )
        requires
            s0.wf(bm, m0),
            s0.evolves(bm, m0, s1, m1),
            m1.len() == m0.len(),
            s1.wf(bm, m1),
            s1.write_pos() == Some(w),
            s2.write_pos() == Some(w),
            s2.pins() == s1.pins(),
            s2.from_shm() == s1.from_shm(),
            s2.spec_len() == s1.spec_len(),
            s1.content(m1).len() == s0.content(m0).len() + size,
            s1.content(m1).take(s0.content(m0).len() as int) == s0.content(m0),
            s0.sendable(m0) ==> s1.sendable(m1),
            bm.in_balance(m0) ==> bm.in_balance(m1),
            placement::reserved(bm, bm.frees(m0), s0, bm.frees(m1), s1, size),
            d.len() == size ==> ({
                let s = s1.slices()[w];
                let t = s2.slices()[w];
                let at = s.write_index - d.len();
                &&& s2.slices() == s1.slices().update(w, t)
                &&& s.read_index <= at
                &&& t == (BufferSlice { data: t.data, ..s })
                &&& match s.data {
                    SliceData::Shm(p) => t == s,
                    SliceData::Heap(v) => t.data matches SliceData::Heap(u) && u@
                        == mem::put_bytes(v@, at, d),
                }
            }),
        ensures
            d.len() == size ==> ({
                let m2 = Self::filled_region(m1, s1.slices()[w], d);
                &&& s2.wf(bm, m2)
                &&& m2.len() == m0.len()
                &&& s0.evolves(bm, m0, s2, m2)
                &&& s2.content(m2) == s0.content(m0) + d
                &&& s0.sendable(m0) ==> s2.sendable(m2)
                &&& bm.in_balance(m0) ==> bm.in_balance(m2)
                &&& placement::reserved(bm, bm.frees(m0), s0, bm.frees(m2), s2, size)
            }),
    {
        if d.len() == size {
            let m2 = Self::filled_region(m1, s1.slices()[w], d);
            Self::lemma_filled(s1, bm, m1, s2, m2, w, d);
            Self::lemma_filled_sendable(s1, bm, m1, s2, m2, w, d);
            s0.lemma_evolves_trans(bm, m0, s1, m1, s2, m2);
            assert forall|k: int| 0 <= k < s1.slices().len() implies placement::same_buffer(
                #[trigger] s2.slices()[k],
                s1.slices()[k],
            ) && s2.slices()[k].write_index == s1.slices()[k].write_index by {
                assert(s1.slices()[k].wf(m1) && bm.owns(m1, s1.slices()[k]));
            }
            placement::lemma_reserved_kept(bm, bm.frees(m0), s0, bm.frees(m1), s1, s2, size);
        }
    }

    /// Hands out the next `size` bytes to be written. What is put there is written.
    pub fn reserve<'a>(&'a mut self, bm: &BufferManager, mem: &'a mut [u8], size: usize) -> (r:
        Result<&'a mut [u8], Error>)
        requires
            old(self).wf(*bm, old(mem)@),
            size > 0 || old(self).can_begin(*bm, old(mem)@),
            size <= u32::MAX ==> old(self).spec_len() + size <= usize::MAX,
        ensures
            r is Ok <==> size <= u32::MAX,
            match r {
                Ok(out) => {
                    &&& out@.len() == size
                    &&& final(out)@.len() == size ==> {
                        &&& final(self).wf(*bm, final(mem)@)
                        &&& final(mem)@.len() == old(mem)@.len()
                        &&& old(self).evolves(*bm, old(mem)@, *final(self), final(mem)@)
                        &&& final(self).content(final(mem)@) == old(self).content(old(mem)@)
                            + final(out)@
                        &&& old(self).sendable(old(mem)@) ==> final(self).sendable(final(mem)@)
                        &&& final(self).pins() == old(self).pins()
                        &&& bm.in_balance(old(mem)@) ==> bm.in_balance(final(mem)@)
                        &&& placement::reserved(
                            *bm,
                            bm.frees(old(mem)@),
                            *old(self),
                            bm.frees(final(mem)@),
                            *final(self),
                            size as int,
                        )
                    }
                },
                Err(e) => {
                    &&& e == Error::NoMoreBuffer
                    &&& *final(self) == *old(self)
                    &&& final(mem)@ == old(mem)@
                },
            },
    {
        if size > u32::MAX as usize {
            return Err(Error::NoMoreBuffer);
        }
        let ghost s0 = *self;
        let ghost m0 = mem@;
        let (w, at) = self.reserve_space(bm, mem, size);
        let ghost s1 = *self;
        let ghost m1 = mem@;
        let ghost s = self.slices()[w as int];
        assert(s.wf(m1) && bm.owns(m1, s));
        assert(s1.content(m1).take(s0.content(m0).len() as int) =~= s0.content(m0));
        let out = self.slice_list.get_mut(w).window(mem, at, size);
        proof {
            assert(after_borrow(*self).slices() =~= s1.slices().update(
                w as int,
                after_borrow(*self).slices()[w as int],
            ));
            Self::lemma_reserved(
                s0,
                m0,
                *bm,
                s1,
                m1,
                after_borrow(*self),
                w as int,
                size as int,
                final(out)@,
            );
        }
        Ok(out)
    }

    /// What [`LinkedBuffer::read_available_into`] copies from the slices `ss`, of which `left`
    /// bytes are to be read, into `room` bytes: whole slices, at most `max` of them, and perhaps
    /// a part of one more. A slice with nothing in it ends the run with an error.
    pub open spec fn available(ss: Seq<BufferSlice>, left: int, room: int, max: int) -> (int, bool)
        decreases ss.len(),
    {
        if left <= 0 || room <= 0 || max <= 0 {
            (0, true)
        } else if ss.len() == 0 || ss[0].write_index <= ss[0].read_index {
            (0, false)
        } else {
            let size = ss[0].write_index - ss[0].read_index;
            if room < size {
                (room, true)
            } else {
                let rest = Self::available(ss.skip(1), left - size, room - size, max - 1);
                (size + rest.0, rest.1)
            }
        }
    }

    /// Copies unread bytes into `dst`, from at most `max_slices` slices, and counts them as read.
    pub fn read_available_into(
        &mut self,
        bm: &BufferManager,
        mem: &mut [u8],
        dst: &mut tokio::io::ReadBuf<'_>,
        max_slices: usize,
    ) -> (r: Result<usize, Error>)
        requires
            old(self).wf(*bm, old(mem)@),
            max_slices > 0 || outside::read_buf_capacity(*old(dst)) == outside::read_buf_filled(
                *old(dst),
            ).len(),
        ensures
            final(self).wf(*bm, final(mem)@),
            final(mem)@.len() == old(mem)@.len(),
            old(self).evolves(*bm, old(mem)@, *final(self), final(mem)@),
            outside::read_buf_capacity(*final(dst)) == outside::read_buf_capacity(*old(dst)),
            ({
                let c = old(self).content(old(mem)@);
                let room = outside::read_buf_capacity(*old(dst)) - outside::read_buf_filled(
                    *old(dst),
                ).len();
                let a = Self::available(
                    old(self).slices().skip(old(self).first_unread(0)),
                    c.len() as int,
                    room,
                    max_slices as int,
                );
                let t = taking::passed(
                    old(self).slices().skip(old(self).first_unread(0)),
                    c.len() as int,
                    room,
                    max_slices as int,
                );
                if room == 0 {
                    &&& r == Ok::<usize, Error>(0)
                    &&& *final(self) == *old(self)
                    &&& final(mem)@ == old(mem)@
                    &&& outside::read_buf_filled(*final(dst)) == outside::read_buf_filled(
                        *old(dst),
                    )
                } else if c.len() == 0 {
                    &&& r == Err::<usize, Error>(Error::NotEnoughData)
                    &&& *final(self) == *old(self)
                    &&& final(mem)@ == old(mem)@
                    &&& outside::read_buf_filled(*final(dst)) == outside::read_buf_filled(
                        *old(dst),
                    )
                } else {
                    &&& 0 < a.0 <= c.len()
                    &&& r == if a.1 {
                        Ok::<usize, Error>(a.0 as usize)
                    } else {
                        Err(Error::NotEnoughData)
                    }
                    &&& final(self).content(final(mem)@) == c.skip(a.0)
                    &&& outside::read_buf_filled(*final(dst)) == outside::read_buf_filled(
                        *old(dst),
                    ) + c.take(a.0)
                    &&& old(self).took_out(
                        *bm,
                        old(mem)@,
                        *final(self),
                        final(mem)@,
                        old(self).first_unread(0) + t.0,
                        t.1,
                        None,
                    )
                }
            }),
    {
        let ghost s0 = *self;
        let ghost m0 = mem@;
        let ghost c0 = self.content(m0);
        let ghost f0 = outside::read_buf_filled(*dst);
        let ghost cap = outside::read_buf_capacity(*dst);
        proof {
            self.lemma_evolves_refl(*bm, m0);
        }
        if outside::read_buf_remaining(dst) == 0 {
            return Ok(0);
        }
        if self.len == 0 {
            return Err(Error::NotEnoughData);
        }
        let ghost room0 = cap - f0.len();
        let ghost goal = Self::available(
            s0.slices().skip(s0.first_unread(0)),
            c0.len() as int,
            room0,
            max_slices as int,
        );
        let ghost k0 = s0.first_unread(0);
        let ghost end = taking::passed(
            s0.slices().skip(k0),
            c0.len() as int,
            room0,
            max_slices as int,
        );
        let ghost mut g: int = k0;
        self.drop_empty_front(bm, mem);
        let mut copied: usize = 0;
        let mut slices_read: usize = 0;
        let mut more: bool = true;
        proof {
            assert(c0.skip(0) =~= c0);
            assert(f0 + c0.take(0) =~= f0);
            if self.slices().len() == 0 {
                assert(self.content(mem@).len() == 0);
            }
        }
        while more && self.len > 0 && outside::read_buf_remaining(dst) > 0 && slices_read
            < max_slices
            invariant
                self.wf(*bm, mem@),
                mem@.len() == m0.len(),
                s0.evolves(*bm, m0, *self, mem@),
                s0 == *old(self),
                m0 == old(mem)@,
                c0 == s0.content(m0),
                c0.len() > 0,
                f0 == outside::read_buf_filled(*old(dst)),
                cap == outside::read_buf_capacity(*old(dst)),
                goal == Self::available(
                    s0.slices().skip(s0.first_unread(0)),
                    c0.len() as int,
                    room0,
                    max_slices as int,
                ),
                room0 > 0,
                outside::read_buf_capacity(*dst) == cap,
                outside::read_buf_filled(*dst) == f0 + c0.take(copied as int),
                copied <= c0.len(),
                c0.len() <= usize::MAX,
                f0.len() + copied <= cap,
                self.content(mem@) == c0.skip(copied as int),
                slices_read <= max_slices,
                room0 == cap - f0.len(),
                more ==> goal.0 == copied + Self::available(
                    self.slices(),
                    self.content(mem@).len() as int,
                    room0 - copied,
                    max_slices - slices_read,
                ).0,
                more ==> goal.1 == Self::available(
                    self.slices(),
                    self.content(mem@).len() as int,
                    room0 - copied,
                    max_slices - slices_read,
                ).1,
                !more ==> goal == (copied as int, true),
                s0.wf_slices(*bm, m0),
                k0 == s0.first_unread(0),
                end == taking::passed(
                    s0.slices().skip(k0),
                    c0.len() as int,
                    room0,
                    max_slices as int,
                ),
                more ==> s0.took_out(*bm, m0, *self, mem@, g, 0, None),
                more ==> ({
                    let t = taking::passed(
                        self.slices(),
                        self.content(mem@).len() as int,
                        room0 - copied,
                        max_slices - slices_read,
                    );
                    k0 + end.0 == g + t.0 && end.1 == t.1
                }),
                !more ==> s0.took_out(*bm, m0, *self, mem@, k0 + end.0, end.1, None),
                copied == 0 ==> self.slices().len() > 0 && self.slices()[0].read_index
                    < self.slices()[0].write_index && room0 > 0 && max_slices > slices_read
                    && c0.len() > 0 && more,
            decreases
                if more {
                    1 + self.slices().len()
                } else {
                    0
                },
                self.content(mem@).len(),
        {
            let ghost s1 = *self;
            let ghost m1 = mem@;
            let available: usize = match self.slice_list.front() {
                Some(s) => {
                    assert(self.slices()[0].wf(mem@));
                    s.size()
                },
                None => 0,
            };
            if available == 0 {
                assert(goal == (copied as int, false));
                return Err(Error::NotEnoughData);
            }
            proof {
                lemma_content_len(self.slices(), mem@, 0);
                assert(c0.skip(copied as int).len() == c0.len() - copied);
            }
            let room: usize = outside::read_buf_remaining(dst);
            let read_size: usize = if available <= room {
                available
            } else {
                room
            };
            let at: usize = self.consume_front(bm, mem, read_size);
            let ghost s2 = *self;
            outside::read_buf_put_slice(dst, self.slice_list.get(0).range(mem, at, read_size));
            proof {
                s0.lemma_evolves_trans(*bm, m0, s1, m1, s2, m1);
                assert(taking::read_on(s0.slices().skip(g), 0) =~= s0.slices().skip(g));
                assert(s1.slices()[0] == s0.slices()[g]);
                s0.lemma_took_more(*bm, m0, s1, m1, s2, g, 0, read_size as int, None);
                assert(c0.take(copied as int) + c0.skip(copied as int).take(read_size as int)
                    =~= c0.take(copied + read_size));
                assert(f0 + c0.take(copied as int) + c0.skip(copied as int).take(
                    read_size as int,
                ) =~= f0 + c0.take(copied + read_size));
                assert(c0.skip(copied as int).skip(read_size as int) =~= c0.skip(
                    copied + read_size,
                ));
            }
            copied = copied + read_size;
            if read_size == available {
                slices_read = slices_read + 1;
                if self.len > 0 {
                    proof {
                        lemma_content_front(self.slices(), m1);
                        assert(self.slices()[0].wf(m1));
                        assert(self.slices()[0].unread(m1) =~= Seq::<u8>::empty());
                        assert(Seq::<u8>::empty() + content(self.slices().skip(1), m1) =~= content(
                            self.slices().skip(1),
                            m1,
                        ));
                        assert(self.slices().skip(1) =~= s1.slices().skip(1));
                    }
                    self.read_next_slice(bm, mem);
                    proof {
                        s0.lemma_evolves_trans(*bm, m0, s2, m1, *self, mem@);
                        s0.lemma_took_slice(*bm, m0, s2, m1, *self, mem@, g, read_size as int);
                        assert(self.slices() =~= s1.slices().skip(1));
                        g = g + 1;
                    }
                } else {
                    more = false;
                    proof {
                        let left = s1.content(m1).len() - available;
                        assert(left == 0);
                        assert(Self::available(
                            s1.slices().skip(1),
                            left,
                            room - available,
                            max_slices - slices_read,
                        ) == (0int, true));
                    }
                    assert(goal == (copied as int, true));
                }
            } else {
                more = false;
                assert(goal == (copied as int, true));
            }
        }
        Ok(copied)
    }

    /// Whether the buffer of the region at `o` is one of the slices or waits for its pins.
    pub fn has_buffer(&self, o: u32) -> (r: bool)
        ensures
            r == (cells(self.slices()).contains(o as int) || cells(
                self.pins().retired(),
            ).contains(o as int)),
    {
        let n: usize = self.slice_list.size();
        let mut i: usize = 0;
        while i < n
            invariant
                n == self.slices().len(),
                0 <= i <= n,
                forall|j: int| 0 <= j < i ==> !#[trigger] cell_at(self.slices(), j, o as int),
            decreases n - i,
        {
            let s = self.slice_list.get(i);
            if s.is_from_shm && s.offset_in_shm == o {
                assert(cell_at(self.slices(), i as int, o as int));
                return true;
            }
            i = i + 1;
        }
        self.pin_registry.waits_at(o)
    }

    /// The chain of the peer that starts at `offset` can be taken over: none of its buffers is
    /// one of this buffer's.
    pub open spec fn can_take_chain(self, bm: BufferManager, m: Seq<u8>, offset: int) -> bool {
        let q = bm.chain_from(m, offset);
        &&& bm.is_chain(m, q)
        &&& q[0] == offset
        &&& q.to_set().disjoint(cells(self.slices()))
        &&& q.to_set().disjoint(cells(self.pins().retired()))
        &&& self.spec_len() + content(BufferManager::slices_at(m, q), m).len() <= usize::MAX
    }

    /// On the way from `self` in `a` to `next` in `b` the slices `ss` were taken over at the back,
    /// where the last of them takes the next write, and the buffers of `unused` went back to their
    /// free lists.
    pub open spec fn took_over(
        self,
        bm: BufferManager,
        a: Seq<u8>,
        next: Self,
        b: Seq<u8>,
        ss: Seq<BufferSlice>,
        unused: Seq<BufferSlice>,
    ) -> bool {
        &&& next.slices() == self.slices() + ss
        &&& next.write_pos() == if ss.len() > 0 {
            Some(next.slices().len() - 1)
        } else {
            self.write_pos()
        }
        &&& next.from_shm() == (self.from_shm() && forall|i: int|
            0 <= i < ss.len() ==> (#[trigger] ss[i]).is_from_shm)
        &&& next.pins() == self.pins()
        &&& bm.frees(b) == taking::frees_with(bm, bm.frees(a), unused)
        &&& bm.counters(b) == taking::counts_with(bm, bm.counters(a), unused)
    }

    /// Bytes that stay while they are the first ones of another buffer stay.
    pub proof fn lemma_same_bytes_further(self, a: Seq<u8>, mid: Self, b: Seq<u8>, c: Seq<u8>)
        requires
            self.same_bytes(a, b),
            mid.same_bytes(b, c),
            self.slices().len() <= mid.slices().len(),
            mid.slices().take(self.slices().len() as int) == self.slices(),
        ensures
            self.same_bytes(a, c),
    {
        let n = self.slices().len() as int;
        assert forall|i: int| 0 <= i < n implies (#[trigger] self.slices()[i]).bytes(c)
            == self.slices()[i].bytes(a) by {
            assert(mid.slices().take(n)[i] == mid.slices()[i]);
            assert(mid.slices()[i].bytes(c) == mid.slices()[i].bytes(b));
        }
    }

    /// What was taken over in two runs was taken over in one.
    pub proof fn lemma_took_over_trans(
        self,
        bm: BufferManager,
        a: Seq<u8>,
        mid: Self,
        b: Seq<u8>,
        next: Self,
        c: Seq<u8>,
        x: (Seq<BufferSlice>, Seq<BufferSlice>),
        y: (Seq<BufferSlice>, Seq<BufferSlice>),
    )
        requires
            self.took_over(bm, a, mid, b, x.0, x.1),
            mid.took_over(bm, b, next, c, y.0, y.1),
        ensures
            self.took_over(bm, a, next, c, x.0 + y.0, x.1 + y.1),
    {
        let ss = x.0 + y.0;
        assert(self.slices() + x.0 + y.0 =~= self.slices() + ss);
        taking::lemma_with_add(bm, bm.frees(a), bm.counters(a), x.1, y.1);
        let all = forall|i: int| 0 <= i < ss.len() ==> (#[trigger] ss[i]).is_from_shm;
        let one = forall|i: int| 0 <= i < x.0.len() ==> (#[trigger] x.0[i]).is_from_shm;
        let two = forall|i: int| 0 <= i < y.0.len() ==> (#[trigger] y.0[i]).is_from_shm;
        if all {
            assert forall|i: int| 0 <= i < x.0.len() implies (#[trigger] x.0[i]).is_from_shm by {
                assert(ss[i] == x.0[i]);
            }
            assert forall|i: int| 0 <= i < y.0.len() implies (#[trigger] y.0[i]).is_from_shm by {
                assert(ss[x.0.len() + i] == y.0[i]);
            }
        }
        if one && two {
            assert forall|i: int| 0 <= i < ss.len() implies (#[trigger] ss[i]).is_from_shm by {
                if i < x.0.len() {
                    assert(ss[i] == x.0[i]);
                } else {
                    assert(ss[i] == y.0[i - x.0.len()]);
                }
            }
        }
    }

    /// Takes over the buffers of a chain that the peer wrote, up to a link that leaves the region.
    /// Those with nothing in them are given back at once.
    #[verifier::rlimit(30)]
    pub fn append_chain(&mut self, bm: &BufferManager, mem: &mut [u8], offset: u32)
        requires
            old(self).wf(*bm, old(mem)@),
            old(self).can_take_chain(*bm, old(mem)@, offset as int),
        ensures
            final(self).wf(*bm, final(mem)@),
            final(mem)@.len() == old(mem)@.len(),
            final(self).pins() == old(self).pins(),
            final(self).from_shm() == old(self).from_shm(),
            ({
                let q = bm.chain_from(old(mem)@, offset as int);
                &&& final(self).content(final(mem)@) == old(self).content(old(mem)@) + content(
                    BufferManager::slices_at(old(mem)@, q),
                    old(mem)@,
                )
                &&& bm.keeps(
                    old(mem)@,
                    final(mem)@,
                    cells(old(self).slices()).union(q.to_set()),
                )
                &&& cells(final(self).slices()).subset_of(
                    cells(old(self).slices()).union(q.to_set()),
                )
                &&& cells(old(self).slices()).subset_of(cells(final(self).slices()))
                &&& all_taken(*bm, final(mem)@, final(self).slices(), q, q.len() as int)
                &&& old(self).took_over(
                    *bm,
                    old(mem)@,
                    *final(self),
                    final(mem)@,
                    filled_of(old(mem)@, q),
                    unused_of(old(mem)@, q),
                )
            }),
            old(self).same_bytes(old(mem)@, final(mem)@),
            bm.in_balance(old(mem)@) ==> bm.in_balance(final(mem)@),
            ({
                let q = bm.chain_from(old(mem)@, offset as int);
                !slice::flag_has_next(slice::header_flag(old(mem)@, q.last()))
                    && final(self).slices().len() > 0 && final(self).slices().last().is_from_shm
                    ==> !slice::flag_has_next(
                    slice::header_flag(
                        final(mem)@,
                        final(self).slices().last().offset_in_shm as int,
                    ),
                )
            }),
            forall|o: int| #[trigger]
                bm.is_allocated(final(mem)@, o) ==> bm.is_allocated(old(mem)@, o),
    {
        let ghost s0 = *self;
        let ghost m0 = mem@;
        let ghost q = bm.chain_from(m0, offset as int);
        let ghost own = cells(s0.slices()).union(q.to_set());
        let ghost mut k: int = 0;
        let mut offset: u32 = offset;
        proof {
            assert(bm.keeps(m0, mem@, own)) by {
                reveal(BufferManager::keeps);
            }
            assert(q.take(0) =~= Seq::<int>::empty());
            assert(q.skip(0) =~= q);
            assert(BufferManager::slices_at(m0, q.take(0)) =~= Seq::<BufferSlice>::empty());
            assert(s0.content(m0) + Seq::<u8>::empty() =~= s0.content(m0));
            assert(filled_of(m0, q.take(0)) =~= Seq::<BufferSlice>::empty());
            assert(unused_of(m0, q.take(0)) =~= Seq::<BufferSlice>::empty());
            assert(s0.slices() + Seq::<BufferSlice>::empty() =~= s0.slices());
            slice::lemma_flags(0);
        }
        loop
            invariant_except_break
                k < q.len() ==> offset == q[k] && bm.is_chain(mem@, q.skip(k)),
                k == q.len() ==> offset + BUFFER_HEADER_SIZE >= mem@.len()
                    && slice::flag_has_next(slice::header_flag(m0, q.last())),
                forall|i: int|
                    k <= i < q.len() ==> slice::header_flag(mem@, #[trigger] q[i])
                        == slice::header_flag(m0, q[i]),
                forall|i: int|
                    k <= i < q.len() ==> BufferManager::slice_at(mem@, #[trigger] q[i])
                        == BufferManager::slice_at(m0, q[i]) && BufferManager::slice_at(
                        m0,
                        q[i],
                    ).unread(mem@) == BufferManager::slice_at(m0, q[i]).unread(m0),
                forall|i: int|
                    k <= i < q.len() ==> !cells(self.slices()).contains(#[trigger] q[i]),
                self.content(mem@) == s0.content(m0) + content(
                    BufferManager::slices_at(m0, q.take(k)),
                    m0,
                ),
                all_taken(*bm, mem@, self.slices(), q, k),
                s0.took_over(
                    *bm,
                    m0,
                    *self,
                    mem@,
                    filled_of(m0, q.take(k)),
                    unused_of(m0, q.take(k)),
                ),
            invariant
                self.wf(*bm, mem@),
                s0.wf(*bm, m0),
                mem@.len() == m0.len(),
                bm.is_chain(m0, q),
                0 <= k <= q.len(),
                own == cells(s0.slices()).union(q.to_set()),
                bm.keeps(m0, mem@, own),
                cells(self.slices()).subset_of(own),
                cells(s0.slices()).subset_of(cells(self.slices())),
                forall|x: int| #[trigger] bm.is_allocated(mem@, x) ==> bm.is_allocated(m0, x),
                q.to_set().disjoint(cells(s0.pins().retired())),
                self.pins() == s0.pins(),
                self.from_shm() == s0.from_shm(),
                s0.same_bytes(m0, mem@),
                bm.in_balance(m0) ==> bm.in_balance(mem@),
                s0.spec_len() + content(BufferManager::slices_at(m0, q), m0).len() <= usize::MAX,
            ensures
                self.content(mem@) == s0.content(m0) + content(
                    BufferManager::slices_at(m0, q),
                    m0,
                ),
                all_taken(*bm, mem@, self.slices(), q, q.len() as int),
                s0.took_over(*bm, m0, *self, mem@, filled_of(m0, q), unused_of(m0, q)),
                !slice::flag_has_next(slice::header_flag(m0, q.last())) && self.slices().len() > 0
                    && self.slices().last().is_from_shm ==> !slice::flag_has_next(
                    slice::header_flag(mem@, self.slices().last().offset_in_shm as int),
                ),
            decreases q.len() - k,
        {
            let ghost m1 = mem@;
            let ghost s1 = *self;
            let ghost o = q[k];
            let ghost one = BufferManager::slice_at(m0, o);
            proof {
                bm.lists@[0].lemma_fits(m1);
                if k == q.len() {
                    assert(q.take(k) =~= q);
                } else {
                    let rest = q.skip(k);
                    assert(rest[0] == o);
                    assert(bm.is_allocated(m1, rest[0]));
                    assert(BufferManager::readable(m1, rest[0]));
                    let li = choose|i: int| bm.in_use(m1, i, o);
                    bm.lemma_in_use(m1, li, o);
                    lemma_take_more(m0, q, k);
                    lemma_content_of_part(m0, q, k + 1);
                    assert(q.take(k + 1).drop_last() =~= q.take(k));
                    assert(q.take(k + 1).last() == o);
                    slice::lemma_flags(0);
                    if rest.len() > 1 {
                        assert(slice::header_next(m1, rest[0]) == rest[1]);
                        assert(rest[1] == q[k + 1]);
                    } else {
                        assert(rest.last() == rest[0]);
                        assert(q.last() == o);
                    }
                }
            }
            let header = slice::BufferHeader(offset as usize);
            let s = match bm.read_buffer_slice(mem, offset) {
                Ok(s) => s,
                Err(_) => {
                    assert(k == q.len());
                    break;
                },
            };
            assert(s == one);
            let has_next: bool = header.has_next(mem);
            let next: u32 = header.next_buffer_offset(mem);
            if s.size() == 0 {
                assert(one.unread(m0) =~= Seq::<u8>::empty());
                assert(s0.content(m0) + content(BufferManager::slices_at(m0, q.take(k + 1)), m0)
                    =~= self.content(m1));
                bm.recycle_buffer(mem, s);
                proof {
                    assert(unused_of(m0, q.take(k + 1)).drop_last() =~= unused_of(m0, q.take(k)));
                    if bm.in_balance(m1) {
                        bm.law_counts_follow_giving_back(m1, mem@, o);
                    }
                    self.lemma_chain_step_recycled(*bm, m1, mem@, q, k);
                    assert(self.slices().take(s0.slices().len() as int) =~= s0.slices());
                    s0.lemma_same_bytes_further(m0, *self, m1, mem@);
                    assert(q.contains(o)) by {
                        assert(q[k] == o);
                    }
                    bm.lemma_keeps_wider(m1, mem@, set![o], own);
                    bm.lemma_keeps_trans(m0, m1, mem@, own, own);
                    assert forall|x: int| #[trigger] bm.is_allocated(mem@, x) implies bm.is_allocated(
                        m1,
                        x,
                    ) by {
                        bm.lemma_allocated_back(m1, mem@, o, x);
                    }
                    assert(all_taken(*bm, mem@, self.slices(), q, k + 1)) by {
                        assert forall|i: int| 0 <= i < k + 1 implies cells(
                            self.slices(),
                        ).contains(#[trigger] q[i]) || !bm.is_allocated(mem@, q[i]) by {}
                    }
                }
                if has_next {
                    offset = next;
                    proof {
                        assert forall|i: int| k + 1 <= i < q.len() implies {
                            &&& BufferManager::slice_at(mem@, #[trigger] q[i])
                                == BufferManager::slice_at(m0, q[i])
                            &&& BufferManager::slice_at(m0, q[i]).unread(mem@)
                                == BufferManager::slice_at(m0, q[i]).unread(m0)
                        } by {
                            assert(BufferManager::slice_at(m1, q[i]) == BufferManager::slice_at(
                                m0,
                                q[i],
                            ));
                        }
                        k = k + 1;
                    }
                    continue;
                }
                let ghost m2 = mem@;
                self.close_back(bm, mem);
                proof {
                    assert(self.slices().take(s0.slices().len() as int) =~= s0.slices());
                    s0.lemma_same_bytes_further(m0, *self, m2, mem@);
                    bm.lemma_keeps_wider(m2, mem@, cells(self.slices()), own);
                    bm.lemma_keeps_trans(m0, m2, mem@, own, own);
                    assert(q.take(k + 1) =~= q);
                }
                break;
            }
            proof {
                assert(q.contains(o)) by {
                    assert(q[k] == o);
                }
                assert(bm.owns(m1, s));
                assert(s.unread(m1) == one.unread(m0));
                assert(s.unread(m1).len() == s.write_index - s.read_index);
            }
            self.append_buffer_slice(bm, mem, s);
            proof {
                let ss = filled_of(m0, q.take(k));
                assert(filled_of(m0, q.take(k + 1)) == ss.push(s));
                assert((s0.slices() + ss).push(s) =~= s0.slices() + ss.push(s));
                assert forall|i: int| 0 <= i < ss.push(s).len() implies (
                #[trigger] ss.push(s)[i]).is_from_shm by {
                    lemma_chain_slices_shared(m0, q.take(k + 1), i);
                }
                assert forall|i: int| 0 <= i < ss.len() implies (#[trigger] ss[i]).is_from_shm by {
                    lemma_chain_slices_shared(m0, q.take(k), i);
                }
                lemma_cells_push(s1.slices(), s);
                assert(all_taken(*bm, mem@, self.slices(), q, k + 1)) by {
                    assert forall|i: int| 0 <= i < k + 1 implies cells(self.slices()).contains(
                        #[trigger] q[i],
                    ) || !bm.is_allocated(mem@, q[i]) by {
                        if i < k && cells(s1.slices()).contains(q[i]) {
                            assert(cells(s1.slices().push(s)).contains(q[i]));
                        }
                    }
                }
                assert forall|x: int| cells(s1.slices()).contains(x) implies cells(
                    self.slices(),
                ).contains(x) by {
                    assert(cells(s1.slices().push(s)).contains(x));
                }
                assert(s.unread(m1) == one.unread(m0));
                assert(s0.content(m0) + content(BufferManager::slices_at(m0, q.take(k)), m0)
                    + one.unread(m0) =~= s0.content(m0) + content(
                    BufferManager::slices_at(m0, q.take(k + 1)),
                    m0,
                ));
            }
            if !has_next {
                assert(q.take(k + 1) =~= q);
                break;
            }
            offset = next;
            proof {
                if k + 1 < q.len() {
                    lemma_chain_tail(*bm, m1, q, k);
                }
                assert forall|i: int| k + 1 <= i < q.len() implies !cells(self.slices()).contains(
                    #[trigger] q[i],
                ) by {
                    assert(q[i] != q[k]);
                }
                k = k + 1;
            }
        }
    }

    /// A buffer of the chain with nothing in it was given back.
    proof fn lemma_chain_step_recycled(
        self,
        bm: BufferManager,
        a: Seq<u8>,
        b: Seq<u8>,
        q: Seq<int>,
        k: int,
    )
        requires
            self.wf(bm, a),
            bm.wf(b),
            a.len() == b.len(),
            q.no_duplicates(),
            0 <= k < q.len(),
            bm.is_chain(a, q.skip(k)),
            !cells(self.slices()).contains(q[k]),
            !cells(self.pins().retired()).contains(q[k]),
            bm.keeps(a, b, set![q[k]]),
        ensures
            self.wf(bm, b),
            self.content(b) == self.content(a),
            self.same_bytes(a, b),
            k + 1 < q.len() ==> bm.is_chain(b, q.skip(k + 1)),
            forall|i: int|
                k < i < q.len() ==> slice::header_flag(b, #[trigger] q[i]) == slice::header_flag(
                    a,
                    q[i],
                ),
            forall|i: int|
                k < i < q.len() ==> BufferManager::slice_at(b, #[trigger] q[i])
                    == BufferManager::slice_at(a, q[i]) && BufferManager::slice_at(
                    a,
                    q[i],
                ).unread(b) == BufferManager::slice_at(a, q[i]).unread(a),
    {
        let own = set![q[k]];
        assert(cells(self.slices()).disjoint(own));
        assert(cells(self.pins().retired()).disjoint(own));
        lemma_owns_all_kept(bm, a, b, own, self.slices());
        lemma_owns_all_kept(bm, a, b, own, self.pins().retired());
        if k + 1 < q.len() {
            lemma_chain_tail(bm, a, q, k);
            let tail = q.skip(k + 1);
            assert forall|i: int| 0 <= i < tail.len() implies !own.contains(#[trigger] tail[i]) by {
                assert(tail[i] == q[k + 1 + i]);
            }
            bm.lemma_chain_kept(a, b, own, tail);
            assert forall|i: int| k < i < q.len() implies {
                &&& BufferManager::slice_at(b, #[trigger] q[i]) == BufferManager::slice_at(a, q[i])
                &&& BufferManager::slice_at(a, q[i]).unread(b) == BufferManager::slice_at(
                    a,
                    q[i],
                ).unread(a)
                &&& slice::header_flag(b, q[i]) == slice::header_flag(a, q[i])
            } by {
                let o = q[i];
                let s = BufferManager::slice_at(a, o);
                assert(tail[i - k - 1] == o);
                assert(slice::header_flag(b, tail[i - k - 1]) == slice::header_flag(a, o));
                assert(bm.is_allocated(a, tail[i - k - 1]));
                assert(BufferManager::readable(a, tail[i - k - 1]));
                let li = choose|j: int| bm.in_use(a, j, o);
                bm.lemma_in_use(a, li, o);
                assert(bm.owns(a, s));
                assert(s.wf(a));
                bm.lemma_keeps_slice(a, b, own, s);
            }
        }
    }

    /// Marks the last slice as the end of its chain, if it is a buffer of the region.
    fn close_back(&self, bm: &BufferManager, mem: &mut [u8])
        requires
            self.wf(*bm, old(mem)@),
        ensures
            self.wf(*bm, final(mem)@),
            final(mem)@.len() == old(mem)@.len(),
            self.content(final(mem)@) == self.content(old(mem)@),
            self.same_bytes(old(mem)@, final(mem)@),
            bm.keeps(old(mem)@, final(mem)@, cells(self.slices())),
            bm.frees(final(mem)@) == bm.frees(old(mem)@),
            bm.counters(final(mem)@) == bm.counters(old(mem)@),
            forall|o: int| #[trigger]
                bm.is_allocated(final(mem)@, o) ==> bm.is_allocated(old(mem)@, o),
            self.slices().len() > 0 && self.slices().last().is_from_shm ==> slice::header_flag(
                final(mem)@,
                self.slices().last().offset_in_shm as int,
            ) == 0u8 | SLICE_IN_USED_FLAG,
    {
        broadcast use mem::lemma_put_bytes_len;

        let ghost m0 = mem@;
        let ghost ss = self.slices();
        assert(bm.keeps(m0, mem@, cells(ss))) by {
            reveal(BufferManager::keeps);
        }
        let n: usize = self.slice_list.size();
        if n == 0 {
            return;
        }
        let ghost w = ss.len() - 1;
        assert(bm.owns(m0, ss[w]) && ss[w].wf(m0));
        let back = self.slice_list.get(n - 1);
        if let Some(h) = &back.buffer_header {
            proof {
                let o = ss[w].offset_in_shm as int;
                let k = choose|k: int| bm.in_use(m0, k, o);
                bm.lemma_in_use(m0, k, o);
            }
            h.clear_flag(mem);
            h.set_in_used(mem);
            proof {
                lemma_flag_written(*bm, m0, mem@, ss, w);
                let o = ss[w].offset_in_shm as int;
                assert(cell_at(ss, w, o));
                assert(cells(ss).contains(o));
                bm.lemma_keeps_wider(m0, mem@, set![o], cells(ss));
                lemma_owns_all_kept(*bm, m0, mem@, cells(ss), self.pins().retired());
                lemma_content_same(ss, m0, ss, mem@);
            }
        }
    }
}

/// A chain of which no slice changes has the same slices with and without something in them.
pub proof fn lemma_chain_slices_same(a: Seq<u8>, b: Seq<u8>, q: Seq<int>)
    requires
        forall|i: int|
            0 <= i < q.len() ==> BufferManager::slice_at(b, #[trigger] q[i])
                == BufferManager::slice_at(a, q[i]),
    ensures
        filled_of(b, q) == filled_of(a, q),
        unused_of(b, q) == unused_of(a, q),
    decreases q.len(),
{
    if q.len() > 0 {
        assert(q.last() == q[q.len() - 1]);
        assert forall|i: int| 0 <= i < q.drop_last().len() implies BufferManager::slice_at(
            b,
            #[trigger] q.drop_last()[i],
        ) == BufferManager::slice_at(a, q.drop_last()[i]) by {
            assert(q.drop_last()[i] == q[i]);
        }
        lemma_chain_slices_same(a, b, q.drop_last());
    }
}

proof fn lemma_chain_slices_shared(m: Seq<u8>, q: Seq<int>, i: int)
    requires
        0 <= i < filled_of(m, q).len(),
    ensures
        filled_of(m, q)[i].is_from_shm,
    decreases q.len(),
{
    if q.len() > 0 {
        if i < filled_of(m, q.drop_last()).len() {
            lemma_chain_slices_shared(m, q.drop_last(), i);
        }
    }
}

/// The flag of slice `i` was written.
proof fn lemma_flag_written(
    bm: BufferManager,
    a: Seq<u8>,
    b: Seq<u8>,
    ss: Seq<BufferSlice>,
    i: int,
)
    requires
        bm.wf(a),
        owns_all(bm, a, ss),
        0 <= i < ss.len(),
        ss[i].is_from_shm,
        ({
            let o = ss[i].offset_in_shm + BUFFER_FLAG_OFFSET;
            let m = mem::put_bytes(a, o, seq![0u8]);
            b == mem::put_bytes(m, o, seq![m[o] | SLICE_IN_USED_FLAG])
        }),
    ensures
        bm.wf(b),
        a.len() == b.len(),
        bm.frees(b) == bm.frees(a),
        bm.counters(b) == bm.counters(a),
        bm.keeps(a, b, set![ss[i].offset_in_shm as int]),
        owns_all(bm, b, ss),
        forall|k: int| 0 <= k < ss.len() ==> (#[trigger] ss[k]).bytes(b) == ss[k].bytes(a),
        slice::header_flag(b, ss[i].offset_in_shm as int) == 0u8 | SLICE_IN_USED_FLAG,
        forall|o: int| #[trigger] bm.is_allocated(b, o) ==> bm.is_allocated(a, o),
{
    broadcast use mem::group_mem;

    let s = ss[i];
    let q = s.offset_in_shm as int;
    assert(bm.owns(a, s) && s.wf(a));
    let k0 = choose|k: int| bm.in_use(a, k, q);
    bm.lemma_in_use(a, k0, q);
    bm.lemma_cell_written(a, b, q);
    assert(s.bytes(b) =~= s.bytes(a));
    assert forall|k: int| 0 <= k < ss.len() && k != i implies {
        &&& bm.owns(b, #[trigger] ss[k])
        &&& ss[k].wf(b)
        &&& ss[k].bytes(b) == ss[k].bytes(a)
    } by {
        assert(bm.owns(a, ss[k]) && ss[k].wf(a));
        if k < i {
            assert(!ss[k].is_from_shm || ss[k].offset_in_shm != ss[i].offset_in_shm);
        } else {
            assert(!ss[k].is_from_shm || ss[i].offset_in_shm != ss[k].offset_in_shm);
        }
        bm.lemma_keeps_slice(a, b, set![q], ss[k]);
    }
    assert(bm.owns(b, s));
    assert(s.wf(b));
}

/// One more buffer of a chain.
proof fn lemma_take_more(m: Seq<u8>, q: Seq<int>, k: int)
    requires
        0 <= k < q.len(),
    ensures
        content(BufferManager::slices_at(m, q.take(k + 1)), m) == content(
            BufferManager::slices_at(m, q.take(k)),
            m,
        ) + BufferManager::slice_at(m, q[k]).unread(m),
{
    assert(BufferManager::slices_at(m, q.take(k + 1)) =~= BufferManager::slices_at(
        m,
        q.take(k),
    ).push(BufferManager::slice_at(m, q[k])));
    lemma_content_push(
        BufferManager::slices_at(m, q.take(k)),
        BufferManager::slice_at(m, q[k]),
        m,
    );
}

/// A part of a chain holds no more than the whole.
proof fn lemma_content_of_part(m: Seq<u8>, q: Seq<int>, k: int)
    requires
        0 <= k <= q.len(),
    ensures
        content(BufferManager::slices_at(m, q.take(k)), m).len() <= content(
            BufferManager::slices_at(m, q),
            m,
        ).len(),
{
    assert(BufferManager::slices_at(m, q) =~= BufferManager::slices_at(m, q.take(k))
        + BufferManager::slices_at(m, q.skip(k)));
    lemma_content_add(
        BufferManager::slices_at(m, q.take(k)),
        BufferManager::slices_at(m, q.skip(k)),
        m,
    );
}

/// What follows the first buffer of a chain is a chain.
proof fn lemma_chain_tail(bm: BufferManager, m: Seq<u8>, q: Seq<int>, k: int)
    requires
        0 <= k,
        k + 1 < q.len(),
        bm.is_chain(m, q.skip(k)),
    ensures
        bm.is_chain(m, q.skip(k + 1)),
{
    let rest = q.skip(k);
    let tail = q.skip(k + 1);
    assert forall|i: int| 0 <= i < tail.len() implies bm.is_allocated(m, #[trigger] tail[i])
        && BufferManager::readable(m, tail[i]) by {
        assert(tail[i] == rest[i + 1]);
    }
    assert forall|i: int, j: int| 0 <= i < tail.len() && j == i + 1 && j < tail.len() implies {
        &&& slice::header_next(m, #[trigger] tail[i]) == #[trigger] tail[j]
        &&& BufferManager::names_next(m, tail[i])
    } by {
        assert(tail[i] == rest[i + 1] && tail[j] == rest[j + 1]);
    }
    assert(tail.last() == rest.last());
    assert(tail.no_duplicates()) by {
        assert forall|i: int, j: int|
            0 <= i < tail.len() && 0 <= j < tail.len() && i != j implies tail[i] != tail[j] by {
            assert(tail[i] == rest[i + 1] && tail[j] == rest[j + 1]);
        }
    }
}

/// The positions of the slices in the region.
pub open spec fn offsets(ss: Seq<BufferSlice>) -> Seq<int> {
    Seq::new(ss.len(), |i: int| ss[i].offset_in_shm as int)
}

/// What one side wrote, the other reads: after the writer recorded its slices, the chain that
/// starts at the first of them leads the peer through all of them and gives it the bytes that
/// were written.
pub proof fn law_peer_reads_what_was_written(
    bm: BufferManager,
    m0: Seq<u8>,
    m: Seq<u8>,
    ss: Seq<BufferSlice>,
)
    requires
        bm.wf(m),
        ss.len() > 0,
        owns_all(bm, m, ss),
        recorded(ss, m0, m),
        forall|i: int| 0 <= i < ss.len() ==> (#[trigger] ss[i]).is_from_shm,
        forall|i: int|
            0 <= i < ss.len() ==> (#[trigger] ss[i]).read_index == 0 && ss[i].start == 0,
        !slice::flag_has_next(slice::header_flag(m0, ss.last().offset_in_shm as int)),
    ensures
        bm.is_chain(m, offsets(ss)),
        bm.chain_from(m, ss[0].offset_in_shm as int) == offsets(ss),
        content(
            BufferManager::slices_at(m, bm.chain_from(m, ss[0].offset_in_shm as int)),
            m,
        ) == content(ss, m),
{
    let q = offsets(ss);
    assert forall|i: int| 0 <= i < q.len() implies {
        &&& bm.is_allocated(m, #[trigger] q[i])
        &&& BufferManager::readable(m, q[i])
        &&& BufferManager::slice_at(m, q[i]).unread(m) == ss[i].unread(m)
    } by {
        assert(bm.owns(m, ss[i]) && ss[i].wf(m));
        assert(recorded_one(ss[i], m0, m, next_of(ss, i)));
        assert(ss[i].is_from_shm && ss[i].read_index == 0 && ss[i].start == 0);
    }
    assert forall|i: int, j: int| 0 <= i < q.len() && j == i + 1 && j < q.len() implies {
        &&& slice::header_next(m, #[trigger] q[i]) == #[trigger] q[j]
        &&& BufferManager::names_next(m, q[i])
    } by {
        assert(recorded_one(ss[i], m0, m, next_of(ss, i)));
        assert(bm.is_allocated(m, q[j]));
        let k = choose|k: int| bm.in_use(m, k, q[j]);
        bm.lemma_in_use(m, k, q[j]);
        bm.lists@[k].lemma_fits(m);
        bm.lists@[k].lemma_node_in(q[j] - bm.lists@[k].region());
    }
    assert(q.no_duplicates()) by {
        assert forall|i: int, j: int|
            0 <= i < q.len() && 0 <= j < q.len() && i != j implies q[i] != q[j] by {
            assert(ss[i].is_from_shm && ss[j].is_from_shm);
            if i < j {
                assert(ss[i].offset_in_shm != ss[j].offset_in_shm);
            } else {
                assert(ss[j].offset_in_shm != ss[i].offset_in_shm);
            }
        }
    }
    let z = ss.len() - 1;
    assert(recorded_one(ss[z], m0, m, next_of(ss, z)));
    assert(q.last() == q[z]);
    assert(bm.is_chain(m, q));
    bm.lemma_chain_unique(m, q);
    lemma_content_same(BufferManager::slices_at(m, q), m, ss, m);
}

/// The slice behind slice `k`, by its position in the region.
pub open spec fn next_of(ss: Seq<BufferSlice>, k: int) -> Option<u32> {
    if k + 1 < ss.len() {
        Some(ss[k + 1].offset_in_shm)
    } else {
        None
    }
}

/// The header of `s` says how much is in it and which buffer follows. Where none follows, the
/// flag is what it was in `m0`.
pub open spec fn recorded_one(s: BufferSlice, m0: Seq<u8>, m: Seq<u8>, next: Option<u32>) -> bool {
    let o = s.offset_in_shm as int;
    &&& slice::header_size(m, o) == s.write_index - s.read_index
    &&& slice::header_start(m, o) == s.start
    &&& match next {
        Some(p) => {
            &&& slice::header_next(m, o) == p
            &&& slice::flag_has_next(slice::header_flag(m, o))
        },
        None => slice::header_flag(m, o) == slice::header_flag(m0, o),
    }
}

/// The headers of the slices say how much is in them and how they follow one another.
pub open spec fn recorded(ss: Seq<BufferSlice>, m0: Seq<u8>, m: Seq<u8>) -> bool {
    forall|k: int| 0 <= k < ss.len() ==> recorded_one(#[trigger] ss[k], m0, m, next_of(ss, k))
}

/// The header of a buffer in use was cleared for the next write.
proof fn lemma_reset_for_reuse(bm: BufferManager, a: Seq<u8>, b: Seq<u8>, s: BufferSlice)
    requires
        bm.wf(a),
        bm.owns(a, s),
        s.is_from_shm,
        b == mem::put_bytes(
            s.reset_region(a),
            s.offset_in_shm + BUFFER_FLAG_OFFSET,
            seq![0u8 | SLICE_IN_USED_FLAG],
        ),
    ensures
        bm.wf(b),
        a.len() == b.len(),
        bm.keeps(a, b, set![s.offset_in_shm as int]),
        bm.frees(b) == bm.frees(a),
        bm.counters(b) == bm.counters(a),
        forall|o: int| bm.is_allocated(b, o) == bm.is_allocated(a, o),
        slice::header_cap(b, s.offset_in_shm as int) == slice::header_cap(
            a,
            s.offset_in_shm as int,
        ),
        slice::header_size(b, s.offset_in_shm as int) == 0,
        slice::header_start(b, s.offset_in_shm as int) == 0,
        slice::flag_in_used(slice::header_flag(b, s.offset_in_shm as int)),
        !slice::flag_has_next(slice::header_flag(b, s.offset_in_shm as int)),
{
    broadcast use mem::group_mem;

    let o = s.offset_in_shm as int;
    let k = choose|k: int| bm.in_use(a, k, o);
    bm.lemma_in_use(a, k, o);
    slice::lemma_flags(0);
    bm.lemma_cell_written(a, b, o);
}

/// No slice is the buffer at `o`.
proof fn lemma_cells_without(ss: Seq<BufferSlice>, o: int)
    requires
        forall|k: int| 0 <= k < ss.len() ==> (#[trigger] ss[k]).offset_in_shm != o,
    ensures
        cells(ss).disjoint(set![o]),
{
    assert forall|p: int| !(cells(ss).contains(p) && set![o].contains(p)) by {
        if cells(ss).contains(p) {
            let i = choose|i: int| #[trigger] cell_at(ss, i, p);
            assert(ss[i].offset_in_shm != o);
        }
    }
}

/// What the headers say stays while other buffers change.
proof fn lemma_recorded_kept(
    bm: BufferManager,
    m0: Seq<u8>,
    a: Seq<u8>,
    b: Seq<u8>,
    own: Set<int>,
    ss: Seq<BufferSlice>,
)
    requires
        bm.wf(a),
        bm.keeps(a, b, own),
        owns_all(bm, a, ss),
        forall|k: int| 0 <= k < ss.len() ==> (#[trigger] ss[k]).is_from_shm,
        cells(ss).disjoint(own),
        recorded(ss, m0, a),
    ensures
        recorded(ss, m0, b),
{
    assert forall|k: int| 0 <= k < ss.len() implies recorded_one(
        #[trigger] ss[k],
        m0,
        b,
        next_of(ss, k),
    ) by {
        assert(recorded_one(ss[k], m0, a, next_of(ss, k)));
        assert(bm.owns(a, ss[k]) && ss[k].wf(a));
        assert(cell_at(ss, k, ss[k].offset_in_shm as int));
        assert(cells(ss).contains(ss[k].offset_in_shm as int));
        bm.lemma_keeps_slice(a, b, own, ss[k]);
    }
}

/// The header of slice `i` was written.
proof fn lemma_header_written(
    bm: BufferManager,
    a: Seq<u8>,
    b: Seq<u8>,
    ss: Seq<BufferSlice>,
    i: int,
    next: Option<u32>,
)
    requires
        bm.wf(a),
        owns_all(bm, a, ss),
        0 <= i < ss.len(),
        ss[i].is_from_shm,
        b == ss[i].updated(a, next),
    ensures
        bm.wf(b),
        a.len() == b.len(),
        bm.keeps(a, b, set![ss[i].offset_in_shm as int]),
        bm.frees(b) == bm.frees(a),
        bm.counters(b) == bm.counters(a),
        forall|o: int| bm.is_allocated(b, o) == bm.is_allocated(a, o),
        owns_all(bm, b, ss),
        forall|k: int| 0 <= k < ss.len() ==> (#[trigger] ss[k]).bytes(b) == ss[k].bytes(a),
        recorded_one(ss[i], a, b, next),
        forall|k: int|
            0 <= k < ss.len() && k != i && (#[trigger] ss[k]).is_from_shm ==> {
                let o = ss[k].offset_in_shm as int;
                &&& slice::header_size(b, o) == slice::header_size(a, o)
                &&& slice::header_start(b, o) == slice::header_start(a, o)
                &&& slice::header_next(b, o) == slice::header_next(a, o)
                &&& slice::header_flag(b, o) == slice::header_flag(a, o)
            },
{
    broadcast use mem::group_mem;

    let s = ss[i];
    let q = s.offset_in_shm as int;
    assert(bm.owns(a, s) && s.wf(a));
    let k0 = choose|k: int| bm.in_use(a, k, q);
    bm.lemma_in_use(a, k0, q);
    slice::lemma_flags(slice::header_flag(a, q));
    bm.lemma_cell_written(a, b, q);
    assert(s.bytes(b) =~= s.bytes(a));
    assert forall|k: int| 0 <= k < ss.len() && k != i implies {
        &&& bm.owns(b, #[trigger] ss[k])
        &&& ss[k].wf(b)
        &&& ss[k].bytes(b) == ss[k].bytes(a)
        &&& ss[k].is_from_shm ==> {
            let o = ss[k].offset_in_shm as int;
            &&& slice::header_size(b, o) == slice::header_size(a, o)
            &&& slice::header_start(b, o) == slice::header_start(a, o)
            &&& slice::header_next(b, o) == slice::header_next(a, o)
            &&& slice::header_flag(b, o) == slice::header_flag(a, o)
        }
    } by {
        assert(bm.owns(a, ss[k]) && ss[k].wf(a));
        if k < i {
            assert(!ss[k].is_from_shm || ss[k].offset_in_shm != ss[i].offset_in_shm);
        } else {
            assert(!ss[k].is_from_shm || ss[i].offset_in_shm != ss[k].offset_in_shm);
        }
        bm.lemma_keeps_slice(a, b, set![q], ss[k]);
    }
    assert(bm.owns(b, s));
    assert(s.wf(b));
}

/// A slice that was read in place is pinned from then on until the last who reads it lets go. Pins
/// of one slice are counted, and what is taken back was given out.
pub proof fn law_pins_are_counted(
    p: &mut PinRegistry,
    q: &mut PinRegistry,
    first: PinLease,
    second: PinLease,
    held: bool,
)
    requires
        old(p).wf(),
        call_ensures(PinRegistry::acquire, (p,), first),
        *old(q) == *final(p),
        call_ensures(PinRegistry::acquire, (q,), second),
        call_ensures(PinRegistry::is_pinned, (&*final(q),), held),
        !old(p).front_pinned(),
    ensures
        held,
        second.id() == first.id(),
        final(p).leases()[first.id()] == 1,
        final(q).leases()[first.id()] == 2,
        final(q).retired() == old(p).retired(),
{
}

/// A slice that is done with goes back at once where nobody has a pin on it, and otherwise when the
/// last pin comes back, and not before.
pub proof fn law_slice_goes_back_with_its_last_pin(
    p: &mut PinRegistry,
    bm: &BufferManager,
    m: &mut [u8],
    slice: BufferSlice,
    q: &mut PinRegistry,
    n: &mut [u8],
    lease: PinLease,
)
    requires
        call_ensures(PinRegistry::retire, (p, bm, m, slice), ()),
        *old(q) == *final(p),
        old(n)@ == final(m)@,
        call_ensures(PinRegistry::release, (q, bm, n, lease), ()),
        slice.is_from_shm,
        old(p).front() == Some(lease.id()),
        old(p).wf(),
        !old(p).retired_ids().contains(lease.id()),
    ensures
        !old(p).front_pinned() ==> !bm.is_allocated(final(m)@, slice.offset_in_shm as int),
        old(p).front_pinned() ==> final(m)@ == old(m)@,
        old(p).leases()[lease.id()] == 1 ==> !bm.is_allocated(
            final(n)@,
            slice.offset_in_shm as int,
        ),
        old(p).leases()[lease.id()] > 1 ==> final(n)@ == old(m)@ && final(q).retired()
            == old(p).retired().push(slice),
{
    if old(p).front_pinned() {
        let ids = final(p).retired_ids();
        let k = old(p).retired_ids().len() as int;
        assert(ids[k] == lease.id());
        assert(ids.contains(lease.id()));
        let j = ids.index_of(lease.id());
        assert(ids[j] == lease.id());
        if j < k {
            assert(old(p).retired_ids()[j] == lease.id());
        }
    }
}

} // verus!
