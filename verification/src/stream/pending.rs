//! Data that came in for a stream and was not yet taken up by it.

use vstd::prelude::*;

use crate::buffer::chain;
use crate::buffer::linked;
use crate::buffer::linked::LinkedBuffer;
use crate::buffer::manager::{BufferManager, BUFFER_HEADER_SIZE};
use crate::buffer::slice;
use crate::buffer::slice::{BufferHeader, BufferSlice};

verus! {

/// Data that came in: bytes that came over the connection, or the position of the first buffer of
/// a chain in the region.
#[derive(Debug)]
pub struct BufferSliceWrapper {
    pub fallback_slice: Option<BufferSlice>,
    pub offset: u32,
}

/// The position lies inside the region.
pub open spec fn inside(m: Seq<u8>, offset: u32) -> bool {
    offset + BUFFER_HEADER_SIZE < m.len()
}

impl BufferSliceWrapper {
    /// The data names a chain of the region.
    pub open spec fn is_chain(self, m: Seq<u8>) -> bool {
        self.fallback_slice is None && inside(m, self.offset)
    }

    /// The buffers of the region that the data is in.
    pub open spec fn taken(self, bm: BufferManager, m: Seq<u8>) -> Set<int> {
        if self.is_chain(m) {
            bm.chain_from(m, self.offset as int).to_set()
        } else {
            Set::empty()
        }
    }

    /// The data is what a peer sends: bytes on the heap, or a chain of buffers in use. A position
    /// outside of the region names nothing, and a chain ends at a link that leaves the region.
    pub open spec fn wf(self, bm: BufferManager, m: Seq<u8>) -> bool {
        match self.fallback_slice {
            Some(s) => !s.is_from_shm && bm.owns(m, s) && s.wf(m),
            None => inside(m, self.offset) ==> {
                let q = bm.chain_from(m, self.offset as int);
                bm.is_chain(m, q) && q[0] == self.offset
            },
        }
    }

    /// The bytes of the data.
    pub open spec fn bytes(self, bm: BufferManager, m: Seq<u8>) -> Seq<u8> {
        match self.fallback_slice {
            Some(s) => s.unread(m),
            None => if inside(m, self.offset) {
                linked::content(
                    BufferManager::slices_at(m, bm.chain_from(m, self.offset as int)),
                    m,
                )
            } else {
                Seq::empty()
            },
        }
    }

    /// The slices that a buffer gets that takes the data up.
    pub open spec fn slices(self, bm: BufferManager, m: Seq<u8>) -> Seq<BufferSlice> {
        match self.fallback_slice {
            Some(s) => seq![s],
            None => if inside(m, self.offset) {
                linked::filled_of(m, bm.chain_from(m, self.offset as int))
            } else {
                Seq::empty()
            },
        }
    }

    /// The buffers that are given back when the data is taken up: those with nothing in them.
    pub open spec fn unused(self, bm: BufferManager, m: Seq<u8>) -> Seq<BufferSlice> {
        if self.is_chain(m) {
            linked::unused_of(m, bm.chain_from(m, self.offset as int))
        } else {
            Seq::empty()
        }
    }
}

impl BufferSliceWrapper {
    /// Whether the data is what a peer sends, as every function that takes it up asks. It is so of
    /// what a peer flushed; of what a queue announces it is to be tested.
    pub fn is_in_order(&self, bm: &BufferManager, mem: &[u8]) -> (r: bool)
        requires
            bm.wf(mem@),
        ensures
            r == self.wf(*bm, mem@),
    {
        match &self.fallback_slice {
            Some(s) => s.is_on_heap(),
            None => self.offset as u64 + BUFFER_HEADER_SIZE as u64 >= mem.len() as u64
                || bm.find_chain(mem, self.offset).is_some(),
        }
    }

    /// The buffers of the region that the data is in.
    pub fn buffers(&self, bm: &BufferManager, mem: &[u8]) -> (r: Vec<u32>)
        requires
            bm.wf(mem@),
            self.wf(*bm, mem@),
        ensures
            chain::positions(r@).to_set() == self.taken(*bm, mem@),
    {
        if self.fallback_slice.is_none() && (self.offset as u64 + BUFFER_HEADER_SIZE as u64)
            < mem.len() as u64 {
            match bm.find_chain(mem, self.offset) {
                Some(v) => {
                    return v;
                },
                None => {
                    assert(false);
                },
            }
        }
        let v: Vec<u32> = Vec::new();
        assert(chain::positions(v@).to_set() =~= Set::<int>::empty());
        v
    }

    /// How many bytes the data has, if they are no more than `room`.
    pub fn len_within(&self, bm: &BufferManager, mem: &[u8], room: usize) -> (r: Option<usize>)
        requires
            bm.wf(mem@),
            self.wf(*bm, mem@),
        ensures
            r == if self.bytes(*bm, mem@).len() <= room {
                Some(self.bytes(*bm, mem@).len() as usize)
            } else {
                None
            },
    {
        let ghost m = mem@;
        if let Some(s) = &self.fallback_slice {
            let n: usize = s.size();
            return if n <= room {
                Some(n)
            } else {
                None
            };
        }
        if self.offset as u64 + BUFFER_HEADER_SIZE as u64 >= mem.len() as u64 {
            return Some(0);
        }
        let v: Vec<u32> = match bm.find_chain(mem, self.offset) {
            Some(v) => v,
            None => {
                assert(false);
                Vec::new()
            },
        };
        let ghost q = chain::positions(v@);
        let ghost ss = BufferManager::slices_at(m, q);
        let count: usize = v.len();
        let mut total: usize = 0;
        let mut i: usize = 0;
        assert(ss.take(0) =~= Seq::<BufferSlice>::empty());
        while i < count
            invariant
                m == mem@,
                bm.wf(m),
                bm.is_chain(m, q),
                count == v@.len(),
                q == chain::positions(v@),
                ss == BufferManager::slices_at(m, q),
                self.bytes(*bm, m) == linked::content(ss, m),
                0 <= i <= count,
                total <= room,
                total == linked::content(ss.take(i as int), m).len(),
            decreases count - i,
        {
            let ghost o = q[i as int];
            proof {
                assert(bm.is_allocated(m, o));
                assert(BufferManager::readable(m, o));
                let k = choose|k: int| bm.in_use(m, k, o);
                bm.lemma_in_use(m, k, o);
                linked::lemma_content_len(ss, m, i as int);
                assert(ss.take(i + 1) =~= ss.take(i as int).push(ss[i as int]));
                linked::lemma_content_push(ss.take(i as int), ss[i as int], m);
            }
            let header = BufferHeader(v[i] as usize);
            let n: usize = (header.start(mem) + header.size(mem)) as usize;
            assert(ss[i as int].unread(m).len() == n);
            if n > room - total {
                return None;
            }
            total = total + n;
            i = i + 1;
        }
        assert(ss.take(count as int) =~= ss);
        Some(total)
    }
}

/// A link that leaves the region ends the data. The buffers up to it are the data: they are in
/// order, they are what is taken up or given back, and no byte of them is lost.
pub proof fn law_broken_link_ends_data(bm: BufferManager, m: Seq<u8>, q: Seq<int>)
    requires
        bm.wf(m),
        q.len() > 0,
        q.no_duplicates(),
        forall|i: int| 0 <= i < q.len() ==> bm.is_allocated(m, #[trigger] q[i]),
        forall|i: int| 0 <= i < q.len() ==> BufferManager::readable(m, #[trigger] q[i]),
        forall|i: int, j: int|
            0 <= i < q.len() && j == i + 1 && j < q.len() ==> slice::flag_has_next(
                slice::header_flag(m, #[trigger] q[i]),
            ) && slice::header_next(m, q[i]) == #[trigger] q[j],
        slice::flag_has_next(slice::header_flag(m, q.last())),
        slice::header_next(m, q.last()) + BUFFER_HEADER_SIZE >= m.len(),
    ensures
        ({
            let w = BufferSliceWrapper { fallback_slice: None, offset: q[0] as u32 };
            &&& w.wf(bm, m)
            &&& w.taken(bm, m) == q.to_set()
            &&& w.bytes(bm, m) == linked::content(BufferManager::slices_at(m, q), m)
            &&& w.slices(bm, m) == linked::filled_of(m, q)
            &&& w.unused(bm, m) == linked::unused_of(m, q)
        }),
{
    assert forall|i: int| 0 <= i < q.len() implies 0 <= #[trigger] q[i] && q[i]
        + BUFFER_HEADER_SIZE < m.len() <= u32::MAX by {
        assert(bm.is_allocated(m, q[i]));
        let k = choose|k: int| bm.in_use(m, k, q[i]);
        bm.lemma_in_use(m, k, q[i]);
    }
    assert(bm.is_chain(m, q));
    bm.lemma_chain_unique(m, q);
}

/// The slices of the data, in the order in which it came in.
pub open spec fn pending_slices(
    bm: BufferManager,
    m: Seq<u8>,
    ws: Seq<BufferSliceWrapper>,
) -> Seq<BufferSlice>
    decreases ws.len(),
{
    if ws.len() == 0 {
        Seq::empty()
    } else {
        ws[0].slices(bm, m) + pending_slices(bm, m, ws.skip(1))
    }
}

/// The buffers of the data with nothing in them, in the order in which it came in.
pub open spec fn pending_unused(
    bm: BufferManager,
    m: Seq<u8>,
    ws: Seq<BufferSliceWrapper>,
) -> Seq<BufferSlice>
    decreases ws.len(),
{
    if ws.len() == 0 {
        Seq::empty()
    } else {
        ws[0].unused(bm, m) + pending_unused(bm, m, ws.skip(1))
    }
}

/// The bytes of the data, in the order in which it came in.
pub open spec fn pending_bytes(
    bm: BufferManager,
    m: Seq<u8>,
    ws: Seq<BufferSliceWrapper>,
) -> Seq<u8>
    decreases ws.len(),
{
    if ws.len() == 0 {
        Seq::empty()
    } else {
        ws[0].bytes(bm, m) + pending_bytes(bm, m, ws.skip(1))
    }
}

/// Each piece is what a peer sends, and no two are in the same buffer.
pub open spec fn pending_wf(bm: BufferManager, m: Seq<u8>, ws: Seq<BufferSliceWrapper>) -> bool {
    &&& forall|i: int| 0 <= i < ws.len() ==> (#[trigger] ws[i]).wf(bm, m)
    &&& forall|i: int, j: int|
        0 <= i < j < ws.len() ==> (#[trigger] ws[i]).taken(bm, m).disjoint(
            (#[trigger] ws[j]).taken(bm, m),
        )
}

/// No piece is in one of these buffers.
pub open spec fn pending_apart(
    bm: BufferManager,
    m: Seq<u8>,
    ws: Seq<BufferSliceWrapper>,
    own: Set<int>,
) -> bool {
    forall|i: int| 0 <= i < ws.len() ==> (#[trigger] ws[i]).taken(bm, m).disjoint(own)
}

/// A piece came over the connection.
pub open spec fn has_fallback(ws: Seq<BufferSliceWrapper>) -> bool {
    exists|i: int| 0 <= i < ws.len() && (#[trigger] ws[i]).fallback_slice is Some
}

/// A piece of which no buffer changes stays what it is.
pub proof fn lemma_piece_kept(
    bm: BufferManager,
    a: Seq<u8>,
    b: Seq<u8>,
    own: Set<int>,
    w: BufferSliceWrapper,
)
    requires
        bm.wf(a),
        bm.keeps(a, b, own),
        w.wf(bm, a),
        w.taken(bm, a).disjoint(own),
    ensures
        w.wf(bm, b),
        w.taken(bm, b) == w.taken(bm, a),
        w.bytes(bm, b) == w.bytes(bm, a),
        w.slices(bm, b) == w.slices(bm, a),
        w.unused(bm, b) == w.unused(bm, a),
        w.is_chain(b) == w.is_chain(a),
        w.is_chain(a) ==> bm.chain_from(b, w.offset as int) == bm.chain_from(a, w.offset as int),
{
    assert(a.len() == b.len()) by {
        reveal(BufferManager::keeps);
    }
    match w.fallback_slice {
        Some(s) => {
            bm.lemma_keeps_slice(a, b, own, s);
        },
        None => {
            if inside(a, w.offset) {
                let q = bm.chain_from(a, w.offset as int);
                assert forall|i: int| 0 <= i < q.len() implies !own.contains(#[trigger] q[i]) by {
                    assert(q.to_set().contains(q[i]));
                }
                bm.lemma_chain_kept(a, b, own, q);
                bm.lemma_chain_unique(b, q);
                let sa = BufferManager::slices_at(a, q);
                let sb = BufferManager::slices_at(b, q);
                assert forall|i: int| 0 <= i < sb.len() implies (#[trigger] sb[i]).unread(b)
                    == sa[i].unread(a) && sb[i] == sa[i] by {
                    let o = q[i];
                    let s = BufferManager::slice_at(a, o);
                    assert(bm.is_allocated(a, q[i]));
                    assert(BufferManager::readable(a, q[i]));
                    let li = choose|j: int| bm.in_use(a, j, o);
                    bm.lemma_in_use(a, li, o);
                    assert(!own.contains(q[i]));
                    bm.lemma_keeps_slice(a, b, own, s);
                }
                linked::lemma_content_same(sb, b, sa, a);
                assert forall|i: int| 0 <= i < q.len() implies BufferManager::slice_at(
                    b,
                    #[trigger] q[i],
                ) == BufferManager::slice_at(a, q[i]) by {
                    assert(sb[i] == sa[i]);
                }
                linked::lemma_chain_slices_same(a, b, q);
            }
        },
    }
}

/// Pieces of which no buffer changes stay what they are.
pub proof fn lemma_pending_kept(
    bm: BufferManager,
    a: Seq<u8>,
    b: Seq<u8>,
    own: Set<int>,
    ws: Seq<BufferSliceWrapper>,
)
    requires
        bm.wf(a),
        bm.keeps(a, b, own),
        pending_wf(bm, a, ws),
        pending_apart(bm, a, ws, own),
    ensures
        pending_wf(bm, b, ws),
        pending_bytes(bm, b, ws) == pending_bytes(bm, a, ws),
        pending_slices(bm, b, ws) == pending_slices(bm, a, ws),
        pending_unused(bm, b, ws) == pending_unused(bm, a, ws),
        forall|i: int|
            0 <= i < ws.len() ==> (#[trigger] ws[i]).taken(bm, b) == ws[i].taken(bm, a),
{
    assert forall|i: int| 0 <= i < ws.len() implies {
        &&& (#[trigger] ws[i]).wf(bm, b)
        &&& ws[i].taken(bm, b) == ws[i].taken(bm, a)
        &&& ws[i].bytes(bm, b) == ws[i].bytes(bm, a)
        &&& ws[i].slices(bm, b) == ws[i].slices(bm, a)
        &&& ws[i].unused(bm, b) == ws[i].unused(bm, a)
    } by {
        lemma_piece_kept(bm, a, b, own, ws[i]);
    }
    lemma_pending_bytes_same(bm, a, b, ws);
    lemma_pending_slices_same(bm, a, b, ws);
}

proof fn lemma_pending_slices_same(
    bm: BufferManager,
    a: Seq<u8>,
    b: Seq<u8>,
    ws: Seq<BufferSliceWrapper>,
)
    requires
        forall|i: int|
            0 <= i < ws.len() ==> (#[trigger] ws[i]).slices(bm, b) == ws[i].slices(bm, a)
                && ws[i].unused(bm, b) == ws[i].unused(bm, a),
    ensures
        pending_slices(bm, b, ws) == pending_slices(bm, a, ws),
        pending_unused(bm, b, ws) == pending_unused(bm, a, ws),
    decreases ws.len(),
{
    if ws.len() > 0 {
        assert forall|i: int| 0 <= i < ws.skip(1).len() implies (#[trigger] ws.skip(1)[i]).slices(
            bm,
            b,
        ) == ws.skip(1)[i].slices(bm, a) && ws.skip(1)[i].unused(bm, b) == ws.skip(1)[i].unused(
            bm,
            a,
        ) by {
            assert(ws.skip(1)[i] == ws[i + 1]);
        }
        lemma_pending_slices_same(bm, a, b, ws.skip(1));
        assert(ws[0].slices(bm, b) == ws[0].slices(bm, a));
    }
}

proof fn lemma_pending_bytes_same(
    bm: BufferManager,
    a: Seq<u8>,
    b: Seq<u8>,
    ws: Seq<BufferSliceWrapper>,
)
    requires
        forall|i: int|
            0 <= i < ws.len() ==> (#[trigger] ws[i]).bytes(bm, b) == ws[i].bytes(bm, a),
    ensures
        pending_bytes(bm, b, ws) == pending_bytes(bm, a, ws),
    decreases ws.len(),
{
    if ws.len() > 0 {
        assert forall|i: int| 0 <= i < ws.skip(1).len() implies (#[trigger] ws.skip(1)[i]).bytes(
            bm,
            b,
        ) == ws.skip(1)[i].bytes(bm, a) by {
            assert(ws.skip(1)[i] == ws[i + 1]);
        }
        lemma_pending_bytes_same(bm, a, b, ws.skip(1));
        assert(ws[0].bytes(bm, b) == ws[0].bytes(bm, a));
    }
}

/// The pieces behind the first.
pub proof fn lemma_pending_skip(bm: BufferManager, m: Seq<u8>, ws: Seq<BufferSliceWrapper>)
    requires
        pending_wf(bm, m, ws),
        ws.len() > 0,
    ensures
        ws[0].wf(bm, m),
        pending_wf(bm, m, ws.skip(1)),
        pending_apart(bm, m, ws.skip(1), ws[0].taken(bm, m)),
        forall|own: Set<int>| #[trigger]
            pending_apart(bm, m, ws, own) ==> pending_apart(bm, m, ws.skip(1), own)
                && ws[0].taken(bm, m).disjoint(own),
{
    let t = ws.skip(1);
    assert forall|i: int| 0 <= i < t.len() implies {
        &&& (#[trigger] t[i]).wf(bm, m)
        &&& t[i].taken(bm, m).disjoint(ws[0].taken(bm, m))
    } by {
        assert(t[i] == ws[i + 1]);
        assert(ws[0].taken(bm, m).disjoint(ws[i + 1].taken(bm, m)));
    }
    assert forall|i: int, j: int| 0 <= i < j < t.len() implies (#[trigger] t[i]).taken(
        bm,
        m,
    ).disjoint((#[trigger] t[j]).taken(bm, m)) by {
        assert(ws[i + 1].taken(bm, m).disjoint(ws[j + 1].taken(bm, m)));
    }
    assert forall|own: Set<int>| #[trigger] pending_apart(bm, m, ws, own) implies pending_apart(
        bm,
        m,
        t,
        own,
    ) && ws[0].taken(bm, m).disjoint(own) by {
        assert forall|i: int| 0 <= i < t.len() implies (#[trigger] t[i]).taken(bm, m).disjoint(
            own,
        ) by {
            assert(ws[i + 1].taken(bm, m).disjoint(own));
        }
    }
}

/// The pieces and one more behind them.
pub proof fn lemma_pending_push(
    bm: BufferManager,
    m: Seq<u8>,
    ws: Seq<BufferSliceWrapper>,
    w: BufferSliceWrapper,
)
    requires
        pending_wf(bm, m, ws),
        w.wf(bm, m),
        pending_apart(bm, m, ws, w.taken(bm, m)),
    ensures
        pending_wf(bm, m, ws.push(w)),
        pending_bytes(bm, m, ws.push(w)) == pending_bytes(bm, m, ws) + w.bytes(bm, m),
        forall|own: Set<int>| #[trigger]
            pending_apart(bm, m, ws, own) && w.taken(bm, m).disjoint(own) ==> pending_apart(
                bm,
                m,
                ws.push(w),
                own,
            ),
{
    let t = ws.push(w);
    assert forall|i: int, j: int| 0 <= i < j < t.len() implies (#[trigger] t[i]).taken(
        bm,
        m,
    ).disjoint((#[trigger] t[j]).taken(bm, m)) by {
        if j == ws.len() {
            assert(ws[i].taken(bm, m).disjoint(w.taken(bm, m)));
        }
    }
    lemma_pending_bytes_push(bm, m, ws, w);
}

proof fn lemma_pending_bytes_push(
    bm: BufferManager,
    m: Seq<u8>,
    ws: Seq<BufferSliceWrapper>,
    w: BufferSliceWrapper,
)
    ensures
        pending_bytes(bm, m, ws.push(w)) == pending_bytes(bm, m, ws) + w.bytes(bm, m),
    decreases ws.len(),
{
    let t = ws.push(w);
    if ws.len() == 0 {
        reveal_with_fuel(pending_bytes, 2);
        assert(t.skip(1) =~= Seq::<BufferSliceWrapper>::empty());
        assert(w.bytes(bm, m) + Seq::<u8>::empty() =~= Seq::<u8>::empty() + w.bytes(bm, m));
    } else {
        assert(t.skip(1) =~= ws.skip(1).push(w));
        lemma_pending_bytes_push(bm, m, ws.skip(1), w);
        assert(ws[0].bytes(bm, m) + (pending_bytes(bm, m, ws.skip(1)) + w.bytes(bm, m)) =~= ws[0].bytes(bm, m) + pending_bytes(bm, m, ws.skip(1)) + w.bytes(bm, m));
    }
}

/// A buffer of which nothing changes stays what it is.
pub proof fn lemma_buffer_kept(
    bm: BufferManager,
    a: Seq<u8>,
    b: Seq<u8>,
    own: Set<int>,
    buf: LinkedBuffer,
)
    requires
        buf.wf(bm, a),
        bm.wf(b),
        bm.keeps(a, b, own),
        linked::cells(buf.slices()).disjoint(own),
        linked::cells(buf.pins().retired()).disjoint(own),
    ensures
        buf.wf(bm, b),
        buf.content(b) == buf.content(a),
{
    linked::lemma_owns_all_kept(bm, a, b, own, buf.slices());
    linked::lemma_owns_all_kept(bm, a, b, own, buf.pins().retired());
}

} // verus!
