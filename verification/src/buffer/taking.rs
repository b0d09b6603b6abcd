//! What a read takes out of a buffer: which slices are given up, which wait for their pins, and
//! which is read on.

use vstd::prelude::*;

use crate::buffer::buf::Buf;
use crate::buffer::linked;
use crate::buffer::linked::{LinkedBuffer, PinRegistry};
use crate::buffer::list;
use crate::buffer::manager::BufferManager;
use crate::buffer::slice::BufferSlice;

verus! {

/// A slice after `n` more bytes of it were read.
pub open spec fn advanced(s: BufferSlice, n: int) -> BufferSlice {
    BufferSlice { read_index: (s.read_index + n) as usize, ..s }
}

/// A slice after all of it was read.
pub open spec fn drained(s: BufferSlice) -> BufferSlice {
    BufferSlice { read_index: s.write_index, ..s }
}

/// The slices after `n` more bytes of the first one were read.
pub open spec fn read_on(ss: Seq<BufferSlice>, n: int) -> Seq<BufferSlice> {
    if ss.len() == 0 {
        ss
    } else {
        ss.update(0, advanced(ss[0], n))
    }
}

/// The free buffers after those of the slices `ss` went back, one after the other.
pub open spec fn frees_with(bm: BufferManager, f: Seq<Seq<int>>, ss: Seq<BufferSlice>) -> Seq<
    Seq<int>,
>
    decreases ss.len(),
{
    if ss.len() == 0 {
        f
    } else {
        let g = frees_with(bm, f, ss.drop_last());
        let s = ss.last();
        if s.is_from_shm {
            let k = bm.list_of(s.offset_in_shm as int, 0);
            g.update(k, g[k].push(s.offset_in_shm - bm.lists@[k].region()))
        } else {
            g
        }
    }
}

/// The counts of buffers in use after those of the slices `ss` went back, one after the other.
pub open spec fn counts_with(bm: BufferManager, c: Seq<u32>, ss: Seq<BufferSlice>) -> Seq<u32>
    decreases ss.len(),
{
    if ss.len() == 0 {
        c
    } else {
        let d = counts_with(bm, c, ss.drop_last());
        let s = ss.last();
        if s.is_from_shm {
            let k = bm.list_of(s.offset_in_shm as int, 0);
            d.update(k, list::count_down(d[k]))
        } else {
            d
        }
    }
}

/// The pins that are counted as `front` and `leases` become those of `q`: `by` more are out on the
/// first slice, under the name `id`. A slice that had no name gets one that no pin is out for.
pub open spec fn pinned(
    front: Option<int>,
    leases: Seq<usize>,
    q: PinRegistry,
    id: int,
    by: int,
) -> bool {
    &&& q.front() == Some(id)
    &&& 0 <= id <= leases.len()
    &&& front matches Some(f) ==> id == f
    &&& front is None && id < leases.len() ==> leases[id] == 0
    &&& q.leases() == if id < leases.len() {
        leases.update(id, (leases[id] + by) as usize)
    } else {
        leases.push(by as usize)
    }
}

/// The pin that comes with what a read hands out: its name, and that it is one.
pub open spec fn pin_of(b: Buf) -> Option<(int, int)> {
    match b {
        Buf::Shm(s) => Some((s.lease().id(), 1)),
        Buf::Exm(_) => None,
    }
}

/// How many slices are given up when `size` bytes are taken out of `ss`, and how many bytes are
/// then read of the next one. A slice goes when bytes behind it are needed.
pub open spec fn spent(ss: Seq<BufferSlice>, size: int) -> (int, int)
    decreases ss.len(),
{
    if ss.len() == 0 {
        (0, 0)
    } else if size <= ss[0].write_index - ss[0].read_index {
        (0, size)
    } else {
        let rest = spent(ss.skip(1), size - (ss[0].write_index - ss[0].read_index));
        (rest.0 + 1, rest.1)
    }
}

/// How many slices are given up when as much as there is room for is copied out of `ss`, of which
/// `left` bytes are to be read, from at most `max` slices, and how many bytes are then read of the
/// next one. The slice that the last of the bytes was in stays.
pub open spec fn passed(ss: Seq<BufferSlice>, left: int, room: int, max: int) -> (int, int)
    decreases ss.len(),
{
    if left <= 0 || room <= 0 || max <= 0 || ss.len() == 0 {
        (0, 0)
    } else {
        let size = ss[0].write_index - ss[0].read_index;
        if size <= 0 {
            (0, 0)
        } else if room < size {
            (0, room)
        } else if left <= size {
            (0, size)
        } else {
            let rest = passed(ss.skip(1), left - size, room - size, max - 1);
            (rest.0 + 1, rest.1)
        }
    }
}

impl LinkedBuffer {
    /// On the way from `self` in `a` to `next` in `b` the first `g` slices were given up, each read
    /// to its end, and `n` bytes of the one behind them were read.
    ///
    /// If pins are out on the first slice, it waits for them when it is given up. All the others
    /// went back to their free lists at once, and no other buffer in use changed. Where `pin` names
    /// a pin, it is on the slice that is now the first.
    pub open spec fn took_out(
        self,
        bm: BufferManager,
        a: Seq<u8>,
        next: Self,
        b: Seq<u8>,
        g: int,
        n: int,
        pin: Option<(int, int)>,
    ) -> bool {
        let ss = self.slices();
        let p = self.pins();
        let q = next.pins();
        let waits = g > 0 && p.front_pinned();
        let front = if g == 0 {
            p.front()
        } else {
            None
        };
        let back = ss.subrange(
            if waits {
                1
            } else {
                0
            },
            g,
        );
        &&& 0 <= g <= ss.len()
        &&& next.slices() == read_on(ss.skip(g), n)
        &&& next.write_pos() == match self.write_pos() {
            Some(w) if w >= g => Some(w - g),
            _ => None,
        }
        &&& next.from_shm() == self.from_shm()
        &&& q.retired() == if waits {
            p.retired().push(drained(ss[0]))
        } else {
            p.retired()
        }
        &&& q.retired_ids() == if waits {
            p.retired_ids().push(p.front()->0)
        } else {
            p.retired_ids()
        }
        &&& match pin {
            Some((id, by)) => pinned(front, p.leases(), q, id, by),
            None => q.front() == front && q.leases() == p.leases(),
        }
        &&& bm.frees(b) == frees_with(bm, bm.frees(a), back)
        &&& bm.counters(b) == counts_with(bm, bm.counters(a), back)
        &&& bm.keeps(a, b, linked::cells(back))
        &&& g == 0 ==> b == a
    }

    /// On the way from `self` in `a` to `next` in `b`, `size` bytes were taken out at the front.
    pub open spec fn gave_out(
        self,
        bm: BufferManager,
        a: Seq<u8>,
        next: Self,
        b: Seq<u8>,
        size: int,
        pin: Option<(int, int)>,
    ) -> bool {
        let s = spent(self.slices(), size);
        self.took_out(bm, a, next, b, s.0, s.1, pin)
    }

    /// Pins are out on the first slice.
    pub open spec fn waits(self) -> bool {
        self.slices().len() > 0 && self.pins().front_pinned()
    }

    /// The slices that go back at once when all are given up.
    pub open spec fn free_to_go(self) -> Seq<BufferSlice> {
        if self.waits() {
            self.slices().skip(1)
        } else {
            self.slices()
        }
    }

    /// `next` is empty and waits for the pins that are out on the slices of `self`.
    pub open spec fn emptied(self, next: Self) -> bool {
        let p = self.pins();
        let q = next.pins();
        &&& next.slices().len() == 0
        &&& next.write_pos() is None
        &&& next.from_shm()
        &&& next.spec_len() == 0
        &&& q.leases() == p.leases()
        &&& q.front() == if self.slices().len() > 0 {
            None
        } else {
            p.front()
        }
        &&& q.retired() == if self.waits() {
            p.retired().push(self.slices()[0])
        } else {
            p.retired()
        }
        &&& q.retired_ids() == if self.waits() {
            p.retired_ids().push(p.front()->0)
        } else {
            p.retired_ids()
        }
    }

    /// The slices that do not wait for pins went back on the way from `a` to `b`, and no other
    /// buffer in use changed.
    pub open spec fn went_back(self, bm: BufferManager, a: Seq<u8>, b: Seq<u8>) -> bool {
        &&& bm.frees(b) == frees_with(bm, bm.frees(a), self.free_to_go())
        &&& bm.counters(b) == counts_with(bm, bm.counters(a), self.free_to_go())
        &&& bm.keeps(a, b, linked::cells(self.free_to_go()))
    }

    /// A chunk is what is taken out up to the end of the first slice with something to read.
    pub proof fn lemma_chunk_spent(self, bm: BufferManager, m: Seq<u8>)
        requires
            self.wf_slices(bm, m),
        ensures
            ({
                let k = self.first_unread(0);
                &&& 0 <= k <= self.slices().len()
                &&& k < self.slices().len() ==> {
                    let n = self.slices()[k].unread(m).len() as int;
                    spent(self.slices(), n) == (k, n)
                }
            }),
    {
        assert(self.slices().skip(0) =~= self.slices());
        self.lemma_chunk_spent_from(bm, m, 0);
    }

    proof fn lemma_chunk_spent_from(self, bm: BufferManager, m: Seq<u8>, i: int)
        requires
            self.wf_slices(bm, m),
            0 <= i <= self.slices().len(),
        ensures
            ({
                let k = self.first_unread(i);
                &&& i <= k <= self.slices().len()
                &&& k < self.slices().len() ==> {
                    let n = self.slices()[k].unread(m).len() as int;
                    spent(self.slices().skip(i), n) == (k - i, n)
                }
            }),
        decreases self.slices().len() - i,
    {
        let ss = self.slices();
        if i < ss.len() {
            assert(ss[i].wf(m));
            assert(ss.skip(i)[0] == ss[i]);
            if ss[i].read_index >= ss[i].write_index {
                self.lemma_chunk_spent_from(bm, m, i + 1);
                assert(ss.skip(i).skip(1) =~= ss.skip(i + 1));
                let k = self.first_unread(i + 1);
                if k < ss.len() {
                    self.lemma_first_unread_holds(i + 1);
                    assert(ss[k].wf(m));
                }
            }
        }
    }

    proof fn lemma_first_unread_holds(self, i: int)
        ensures
            ({
                let k = self.first_unread(i);
                k < self.slices().len() ==> self.slices()[k].read_index
                    < self.slices()[k].write_index
            }),
        decreases self.slices().len() - i,
    {
        if i < self.slices().len() && self.slices()[i].read_index
            >= self.slices()[i].write_index {
            self.lemma_first_unread_holds(i + 1);
        }
    }

    pub proof fn lemma_took_nothing(self, bm: BufferManager, a: Seq<u8>)
        requires
            self.wf_slices(bm, a),
        ensures
            self.took_out(bm, a, self, a, 0, 0, None),
    {
        reveal(BufferManager::keeps);
        let ss = self.slices();
        assert(ss.skip(0) =~= ss);
        assert(ss.subrange(0, 0) =~= Seq::<BufferSlice>::empty());
        assert(read_on(ss, 0) =~= ss);
    }

    /// `k` more bytes of the first slice were read.
    pub proof fn lemma_took_more(
        self,
        bm: BufferManager,
        a: Seq<u8>,
        mid: Self,
        b: Seq<u8>,
        next: Self,
        g: int,
        n: int,
        k: int,
        pin: Option<(int, int)>,
    )
        requires
            self.took_out(bm, a, mid, b, g, n, pin),
            0 <= n,
            0 <= k,
            g < self.slices().len(),
            self.slices()[g].read_index + n + k <= usize::MAX,
            next.slices() == mid.slices().update(0, advanced(mid.slices()[0], k)),
            next.write_pos() == mid.write_pos(),
            next.from_shm() == mid.from_shm(),
            next.pins() == mid.pins(),
        ensures
            self.took_out(bm, a, next, b, g, n + k, pin),
    {
        let tail = self.slices().skip(g);
        assert(next.slices() =~= read_on(tail, n + k));
    }

    /// A pin was taken on the first slice.
    pub proof fn lemma_took_pin(
        self,
        bm: BufferManager,
        a: Seq<u8>,
        mid: Self,
        b: Seq<u8>,
        next: Self,
        g: int,
        n: int,
        id: int,
        by: int,
    )
        requires
            self.took_out(bm, a, mid, b, g, n, None),
            pinned(mid.pins().front(), mid.pins().leases(), next.pins(), id, by),
            next.pins().retired() == mid.pins().retired(),
            next.pins().retired_ids() == mid.pins().retired_ids(),
            next.slices() == mid.slices(),
            next.write_pos() == mid.write_pos(),
            next.from_shm() == mid.from_shm(),
        ensures
            self.took_out(bm, a, next, b, g, n, Some((id, by))),
    {
    }

    /// The first slice, which was read to its end, was given up too.
    pub proof fn lemma_took_slice(
        self,
        bm: BufferManager,
        a: Seq<u8>,
        mid: Self,
        b: Seq<u8>,
        next: Self,
        c: Seq<u8>,
        g: int,
        n: int,
    )
        requires
            self.took_out(bm, a, mid, b, g, n, None),
            g < self.slices().len(),
            0 <= n,
            self.slices()[g].read_index + n == self.slices()[g].write_index,
            mid.lost_front(bm, b, next, c),
        ensures
            self.took_out(bm, a, next, c, g + 1, 0, None),
    {
        let ss = self.slices();
        let p = self.pins();
        assert(mid.slices()[0] == drained(ss[g]));
        assert(mid.slices().skip(1) =~= ss.skip(g + 1));
        assert(read_on(ss.skip(g + 1), 0) =~= ss.skip(g + 1));
        if g == 0 {
            assert(mid.pins().front_pinned() == p.front_pinned());
        }
        let waits = p.front_pinned();
        let from = if waits {
            1int
        } else {
            0
        };
        let back = ss.subrange(from, g + 1);
        assert(bm.keeps(a, c, linked::cells(back))) by {
            let s = ss[g];
            let o = s.offset_in_shm as int;
            let before = ss.subrange(
                if g > 0 && waits {
                    1
                } else {
                    0
                },
                g,
            );
            assert forall|x: int| linked::cells(before).contains(x) implies linked::cells(
                back,
            ).contains(x) by {
                let i = choose|i: int| #[trigger] linked::cell_at(before, i, x);
                assert(linked::cell_at(back, i, x));
            }
            bm.lemma_keeps_wider(a, b, linked::cells(before), linked::cells(back));
            if c != b {
                assert(linked::cell_at(back, back.len() - 1, o));
                bm.lemma_keeps_trans(a, b, c, linked::cells(back), set![o]);
            }
        }
        if g == 0 && waits {
            assert(back =~= Seq::<BufferSlice>::empty());
            assert(ss.subrange(0, 0) =~= Seq::<BufferSlice>::empty());
        } else {
            assert(back.drop_last() =~= ss.subrange(from, g)) by {
                if g == 0 {
                    assert(back.drop_last() =~= Seq::<BufferSlice>::empty());
                }
            }
            if g == 0 {
                assert(ss.subrange(0, g) =~= ss.subrange(from, g));
            }
            assert(back.last() == ss[g]);
            assert(!mid.pins().front_pinned());
        }
    }

    /// What was taken out in two runs was taken out in one.
    pub proof fn lemma_took_trans(
        self,
        bm: BufferManager,
        a: Seq<u8>,
        mid: Self,
        b: Seq<u8>,
        next: Self,
        c: Seq<u8>,
        g: int,
        h: int,
        n: int,
        pin: Option<(int, int)>,
    )
        requires
            self.took_out(bm, a, mid, b, g, 0, None),
            mid.took_out(bm, b, next, c, h, n, pin),
        ensures
            self.took_out(bm, a, next, c, g + h, n, pin),
    {
        let ss = self.slices();
        let p = self.pins();
        assert(read_on(ss.skip(g), 0) =~= ss.skip(g));
        assert(mid.slices().skip(h) =~= ss.skip(g + h));
        let waits = p.front_pinned();
        let from = if waits {
            1int
        } else {
            0
        };
        if g == 0 {
            assert(mid.slices() =~= ss);
            assert(mid.pins().front_pinned() == p.front_pinned());
            assert(ss.subrange(0, 0) =~= Seq::<BufferSlice>::empty());
        } else {
            assert(!mid.pins().front_pinned());
            let x = ss.subrange(from, g);
            let y = mid.slices().subrange(0, h);
            lemma_with_add(bm, bm.frees(a), bm.counters(a), x, y);
            assert(x + y =~= ss.subrange(from, g + h));
            let own = linked::cells(x + y);
            assert forall|o: int| linked::cells(x).contains(o) implies own.contains(o) by {
                let i = choose|i: int| #[trigger] linked::cell_at(x, i, o);
                assert(linked::cell_at(x + y, i, o));
            }
            assert forall|o: int| linked::cells(y).contains(o) implies own.contains(o) by {
                let i = choose|i: int| #[trigger] linked::cell_at(y, i, o);
                assert(linked::cell_at(x + y, x.len() + i, o));
            }
            bm.lemma_keeps_wider(a, b, linked::cells(x), own);
            bm.lemma_keeps_trans(a, b, c, own, linked::cells(y));
        }
    }
}

impl LinkedBuffer {
    /// The slice that pins named `id` are on: the first one, or one that waits for them.
    pub open spec fn holds(self, id: int, s: BufferSlice) -> bool {
        ||| self.slices().len() > 0 && self.pins().front() == Some(id) && self.slices()[0] == s
        ||| exists|k: int|
            0 <= k < self.pins().retired_ids().len() && #[trigger] self.pins().retired_ids()[k]
                == id && self.pins().retired()[k] == s
    }

    /// `s` is the slice that pins named `id` are on, and such pins are out.
    pub open spec fn is_pinned(self, id: int, s: BufferSlice) -> bool {
        &&& 0 <= id < self.pins().leases().len()
        &&& self.pins().leases()[id] > 0
        &&& self.holds(id, s)
    }

    /// What a read hands out in place is in the slice that is then the first one, and a pin is out
    /// on that slice.
    pub proof fn law_read_pins_its_slice(
        self,
        bm: BufferManager,
        a: Seq<u8>,
        next: Self,
        b: Seq<u8>,
        g: int,
        n: int,
        id: int,
    )
        requires
            self.wf_slices(bm, a),
            g < self.slices().len(),
            self.took_out(bm, a, next, b, g, n, Some((id, 1))),
            id < self.pins().leases().len() ==> self.pins().leases()[id] < usize::MAX,
        ensures
            next.is_pinned(id, next.slices()[0]),
            next.slices()[0] == advanced(self.slices()[g], n),
    {
    }

    /// A slice that pins are out on stays, with its buffer and its bytes, whatever is read. The pins
    /// that were out are out still.
    pub proof fn law_reads_keep_pinned(
        self,
        bm: BufferManager,
        a: Seq<u8>,
        next: Self,
        b: Seq<u8>,
        g: int,
        n: int,
        pin: Option<(int, int)>,
        id: int,
        s: BufferSlice,
    )
        requires
            self.wf_slices(bm, a),
            next.wf_slices(bm, b),
            self.took_out(bm, a, next, b, g, n, pin),
            pin matches Some((i, by)) ==> 0 <= by && (i < self.pins().leases().len()
                ==> self.pins().leases()[i] + by <= usize::MAX),
            self.is_pinned(id, s),
        ensures
            exists|r: usize|
                next.is_pinned(id, #[trigger] read_to(s, r)),
            next.pins().leases()[id] >= self.pins().leases()[id],
            bm.owns(b, s),
            s.bytes(b) == s.bytes(a),
    {
        let ss = self.slices();
        let p = self.pins();
        let q = next.pins();
        let from = if g > 0 && p.front_pinned() {
            1int
        } else {
            0
        };
        let back = ss.subrange(from, g);
        assert(bm.owns(a, s) && s.wf(a));
        if exists|k: int|
            0 <= k < p.retired_ids().len() && #[trigger] p.retired_ids()[k] == id && p.retired()[k]
                == s {
            let k = choose|k: int|
                0 <= k < p.retired_ids().len() && #[trigger] p.retired_ids()[k] == id
                    && p.retired()[k] == s;
            assert(q.retired_ids()[k] == id && q.retired()[k] == s);
            assert(read_to(s, s.read_index) == s);
            assert(next.holds(id, read_to(s, s.read_index)));
            if s.is_from_shm {
                let o = s.offset_in_shm as int;
                assert(linked::cell_at(p.retired(), k, o));
                if linked::cells(back).contains(o) {
                    let i = choose|i: int| #[trigger] linked::cell_at(back, i, o);
                    assert(linked::cell_at(ss, from + i, o));
                    assert(linked::cells(ss).contains(o));
                    assert(linked::cells(p.retired()).contains(o));
                }
            }
        } else if g == 0 {
            assert(ss.skip(0) =~= ss);
            let r = (s.read_index + n) as usize;
            assert(next.slices()[0] == read_to(s, r));
            assert(next.holds(id, read_to(s, r)));
            assert(next.is_pinned(id, read_to(s, r)));
        } else {
            let k = p.retired_ids().len() as int;
            assert(q.retired_ids()[k] == id && q.retired()[k] == read_to(s, s.write_index));
            assert(next.holds(id, read_to(s, s.write_index)));
            assert(next.is_pinned(id, read_to(s, s.write_index)));
            if s.is_from_shm {
                let o = s.offset_in_shm as int;
                if linked::cells(back).contains(o) {
                    let i = choose|i: int| #[trigger] linked::cell_at(back, i, o);
                    assert(ss[from + i] == back[i]);
                    assert(ss[0] == s);
                }
            }
        }
        if g > 0 {
            bm.lemma_keeps_slice(a, b, linked::cells(back), s);
        }
    }

    /// A slice that pins are out on stays, with its buffer and its bytes, when all slices are given
    /// up.
    pub proof fn law_giving_up_keeps_pinned(
        self,
        bm: BufferManager,
        a: Seq<u8>,
        next: Self,
        b: Seq<u8>,
        id: int,
        s: BufferSlice,
    )
        requires
            self.wf_slices(bm, a),
            self.emptied(next),
            self.went_back(bm, a, b) || b == a,
            self.is_pinned(id, s),
        ensures
            next.is_pinned(id, s),
            next.pins().leases() == self.pins().leases(),
            bm.owns(b, s),
            s.bytes(b) == s.bytes(a),
    {
        let ss = self.slices();
        let p = self.pins();
        let q = next.pins();
        let back = self.free_to_go();
        assert(bm.owns(a, s) && s.wf(a));
        let k = if exists|k: int|
            0 <= k < p.retired_ids().len() && #[trigger] p.retired_ids()[k] == id && p.retired()[k]
                == s {
            choose|k: int|
                0 <= k < p.retired_ids().len() && #[trigger] p.retired_ids()[k] == id
                    && p.retired()[k] == s
        } else {
            p.retired_ids().len() as int
        };
        assert(q.retired_ids()[k] == id && q.retired()[k] == s);
        if s.is_from_shm {
            let o = s.offset_in_shm as int;
            if linked::cells(back).contains(o) {
                let i = choose|i: int| #[trigger] linked::cell_at(back, i, o);
                let j = i + ss.len() - back.len();
                assert(ss[j] == back[i]);
                assert(linked::cell_at(ss, j, o));
                assert(linked::cells(ss).contains(o));
                if k < p.retired_ids().len() {
                    assert(linked::cell_at(p.retired(), k, o));
                    assert(linked::cells(p.retired()).contains(o));
                }
            }
        }
        if b != a {
            bm.lemma_keeps_slice(a, b, linked::cells(back), s);
        }
    }

    /// A slice that pins are out on stays, with its bytes, when more is taken over behind it.
    pub proof fn law_taking_over_keeps_pinned(
        self,
        bm: BufferManager,
        a: Seq<u8>,
        next: Self,
        b: Seq<u8>,
        ss: Seq<BufferSlice>,
        unused: Seq<BufferSlice>,
        own: Set<int>,
        id: int,
        s: BufferSlice,
    )
        requires
            self.wf_slices(bm, a),
            self.took_over(bm, a, next, b, ss, unused),
            self.same_bytes(a, b),
            bm.keeps(a, b, own),
            own.disjoint(linked::cells(self.pins().retired())),
            self.is_pinned(id, s),
        ensures
            next.is_pinned(id, s),
            next.pins().leases() == self.pins().leases(),
            s.bytes(b) == s.bytes(a),
    {
        let p = self.pins();
        if exists|k: int|
            0 <= k < p.retired_ids().len() && #[trigger] p.retired_ids()[k] == id && p.retired()[k]
                == s {
            let k = choose|k: int|
                0 <= k < p.retired_ids().len() && #[trigger] p.retired_ids()[k] == id
                    && p.retired()[k] == s;
            assert(bm.owns(a, s) && s.wf(a));
            if s.is_from_shm {
                assert(linked::cell_at(p.retired(), k, s.offset_in_shm as int));
                assert(linked::cells(p.retired()).contains(s.offset_in_shm as int));
            }
            bm.lemma_keeps_slice(a, b, own, s);
        } else {
            assert(next.slices()[0] == self.slices()[0]);
            assert(self.slices()[0].bytes(b) == self.slices()[0].bytes(a));
        }
    }

    /// A slice that was given up stays until its last pin is back, and goes back to its free list
    /// with it.
    pub proof fn law_last_pin_frees(
        self,
        bm: BufferManager,
        a: Seq<u8>,
        next: Self,
        b: Seq<u8>,
        id: int,
        s: BufferSlice,
    )
        requires
            self.wf_slices(bm, a),
            next.slices() == self.slices(),
            self.pins().unpinned(bm, a, next.pins(), b, id),
            self.is_pinned(id, s),
        ensures
            self.pins().leases()[id] > 1 ==> next.is_pinned(id, s) && b == a,
            next.pins().leases()[id] == self.pins().leases()[id] - 1,
            self.pins().leases()[id] == 1 && self.pins().front() != Some(id) ==> {
                &&& forall|t: BufferSlice| !next.holds(id, t)
                &&& s.is_from_shm ==> bm.gives_back(a, b, s.offset_in_shm as int)
                &&& s.is_from_shm ==> !bm.is_allocated(b, s.offset_in_shm as int)
            },
            self.pins().front() == Some(id) ==> next.holds(id, s) && b == a,
    {
        let p = self.pins();
        let q = next.pins();
        if p.front() == Some(id) {
            assert(!p.retired_ids().contains(id)) by {
                if p.retired_ids().contains(id) {
                    let k = choose|k: int| 0 <= k < p.retired_ids().len() && p.retired_ids()[k] == id;
                    assert(p.front() != Some(p.retired_ids()[k]));
                }
            }
        } else {
            let k = choose|k: int|
                0 <= k < p.retired_ids().len() && #[trigger] p.retired_ids()[k] == id
                    && p.retired()[k] == s;
            assert(p.retired_ids().contains(id));
            assert(p.retired_ids().index_of(id) == k);
            if p.leases()[id] > 1 {
                assert(q.retired_ids()[k] == id && q.retired()[k] == s);
            } else {
                assert forall|t: BufferSlice| !next.holds(id, t) by {
                    if next.holds(id, t) {
                        let j = choose|j: int|
                            0 <= j < q.retired_ids().len() && #[trigger] q.retired_ids()[j] == id
                                && q.retired()[j] == t;
                        let i = if j < k {
                            j
                        } else {
                            j + 1
                        };
                        assert(p.retired_ids()[i] == q.retired_ids()[j]);
                    }
                }
            }
        }
    }

    /// After a peek the next bytes are those that it showed: another peek or a read begins with
    /// them, and as many are there to be read.
    pub proof fn law_peek_leaves_all(
        self,
        bm: BufferManager,
        a: Seq<u8>,
        next: Self,
        b: Seq<u8>,
        pin: Option<(int, int)>,
    )
        requires
            self.wf(bm, a),
            next.wf(bm, b),
            self.gave_out(bm, a, next, b, 0, pin),
        ensures
            b == a,
            next.slices() == self.slices(),
            next.content(b) == self.content(a),
            next.spec_len() == self.spec_len(),
    {
        let ss = self.slices();
        if ss.len() > 0 {
            assert(ss[0].wf(a));
        }
        assert(ss.skip(0) =~= ss);
        assert(next.slices() =~= ss);
    }

    /// Counts that say how many buffers are not free still do once slices were read and given up.
    pub proof fn law_counts_follow_reads(
        self,
        bm: BufferManager,
        a: Seq<u8>,
        next: Self,
        b: Seq<u8>,
        g: int,
        n: int,
        pin: Option<(int, int)>,
    )
        requires
            self.wf_slices(bm, a),
            bm.wf(b),
            self.took_out(bm, a, next, b, g, n, pin),
            bm.in_balance(a),
        ensures
            bm.in_balance(b),
    {
        let ss = self.slices();
        let back = ss.subrange(
            if g > 0 && self.pins().front_pinned() {
                1
            } else {
                0
            },
            g,
        );
        assert(linked::owns_all(bm, a, back)) by {
            lemma_owns_part(bm, a, ss, if g > 0 && self.pins().front_pinned() {
                1
            } else {
                0
            }, g);
        }
        lemma_balance_with(bm, a, b, back);
    }

    /// Counts that say how many buffers are not free still do once all slices were given up.
    pub proof fn law_counts_follow_giving_up(self, bm: BufferManager, a: Seq<u8>, b: Seq<u8>)
        requires
            self.wf_slices(bm, a),
            bm.wf(b),
            self.went_back(bm, a, b),
            bm.in_balance(a),
        ensures
            bm.in_balance(b),
    {
        let ss = self.slices();
        if self.waits() {
            lemma_owns_part(bm, a, ss, 1, ss.len() as int);
            assert(ss.subrange(1, ss.len() as int) =~= self.free_to_go());
        }
        lemma_balance_with(bm, a, b, self.free_to_go());
    }
}

/// A slice that was read up to `r`.
pub open spec fn read_to(s: BufferSlice, r: usize) -> BufferSlice {
    BufferSlice { read_index: r, ..s }
}

/// A part of one's own slices is one's own.
pub proof fn lemma_owns_part(bm: BufferManager, m: Seq<u8>, ss: Seq<BufferSlice>, i: int, j: int)
    requires
        linked::owns_all(bm, m, ss),
        0 <= i <= j <= ss.len(),
    ensures
        linked::owns_all(bm, m, ss.subrange(i, j)),
{
    let part = ss.subrange(i, j);
    assert forall|k: int| 0 <= k < part.len() implies bm.owns(m, #[trigger] part[k])
        && part[k].wf(m) by {
        assert(part[k] == ss[i + k]);
    }
}

/// The counts and the free buffers change together.
pub proof fn lemma_balance_with(bm: BufferManager, a: Seq<u8>, b: Seq<u8>, ss: Seq<BufferSlice>)
    requires
        bm.wf(a),
        bm.wf(b),
        bm.in_balance(a),
        linked::owns_all(bm, a, ss),
        bm.frees(b) == frees_with(bm, bm.frees(a), ss),
        bm.counters(b) == counts_with(bm, bm.counters(a), ss),
    ensures
        bm.in_balance(b),
{
    assert forall|i: int| 0 <= i < bm.lists@.len() implies (#[trigger] bm.frees(b)[i]).len()
        <= bm.lists@[i].cap by {
        assert(bm.lists@[i].wf(b));
        assert(bm.frees(b)[i] == bm.lists@[i].free(b));
    }
    assert(ss.take(ss.len() as int) =~= ss);
    lemma_balance_steps(bm, a, ss, ss.len() as int);
}

proof fn lemma_balance_steps(bm: BufferManager, a: Seq<u8>, ss: Seq<BufferSlice>, n: int)
    requires
        bm.wf(a),
        bm.in_balance(a),
        linked::owns_all(bm, a, ss),
        0 <= n <= ss.len(),
        forall|i: int|
            0 <= i < bm.lists@.len() ==> (#[trigger] frees_with(
                bm,
                bm.frees(a),
                ss.take(n),
            )[i]).len() <= bm.lists@[i].cap,
    ensures
        frees_with(bm, bm.frees(a), ss.take(n)).len() == bm.lists@.len(),
        counts_with(bm, bm.counters(a), ss.take(n)).len() == bm.lists@.len(),
        forall|i: int|
            0 <= i < bm.lists@.len() ==> counts_with(bm, bm.counters(a), ss.take(n))[i] + (
            #[trigger] frees_with(bm, bm.frees(a), ss.take(n))[i]).len() == bm.lists@[i].cap,
    decreases n,
{
    if n == 0 {
        assert(ss.take(0) =~= Seq::<BufferSlice>::empty());
        assert forall|i: int| 0 <= i < bm.lists@.len() implies counts_with(
            bm,
            bm.counters(a),
            ss.take(n),
        )[i] + (#[trigger] frees_with(bm, bm.frees(a), ss.take(n))[i]).len() == bm.lists@[i].cap by {
            assert(bm.counters(a)[i] + bm.frees(a)[i].len() == bm.lists@[i].cap);
        }
    } else {
        let x = ss.take(n);
        let y = ss.take(n - 1);
        let s = ss[n - 1];
        assert(x.drop_last() =~= y);
        assert(x.last() == s);
        assert(bm.owns(a, s));
        let f = frees_with(bm, bm.frees(a), y);
        let g = frees_with(bm, bm.frees(a), x);
        lemma_with_len(bm, a, ss, n - 1);
        if s.is_from_shm {
            let o = s.offset_in_shm as int;
            let k = choose|k: int| bm.in_use(a, k, o);
            bm.lemma_in_use(a, k, o);
            bm.lemma_list_of(a, k, o);
            assert(bm.list_of(o, 0) == k);
            assert forall|i: int| 0 <= i < bm.lists@.len() implies (#[trigger] f[i]).len()
                <= bm.lists@[i].cap by {
                assert(g[i].len() <= bm.lists@[i].cap);
            }
            lemma_balance_steps(bm, a, ss, n - 1);
            assert(counts_with(bm, bm.counters(a), y)[k] + f[k].len() == bm.lists@[k].cap);
            assert(g[k].len() <= bm.lists@[k].cap);
            let c = counts_with(bm, bm.counters(a), y);
            let d = counts_with(bm, bm.counters(a), x);
            assert forall|i: int| 0 <= i < bm.lists@.len() implies d[i] + (
            #[trigger] g[i]).len() == bm.lists@[i].cap by {
                assert(c[i] + f[i].len() == bm.lists@[i].cap);
            }
        } else {
            lemma_balance_steps(bm, a, ss, n - 1);
        }
    }
}

proof fn lemma_with_len(bm: BufferManager, a: Seq<u8>, ss: Seq<BufferSlice>, n: int)
    requires
        bm.wf(a),
        linked::owns_all(bm, a, ss),
        0 <= n <= ss.len(),
    ensures
        frees_with(bm, bm.frees(a), ss.take(n)).len() == bm.lists@.len(),
    decreases n,
{
    if n > 0 {
        let s = ss[n - 1];
        lemma_with_len(bm, a, ss, n - 1);
        assert(ss.take(n).drop_last() =~= ss.take(n - 1));
        assert(bm.owns(a, s));
        if s.is_from_shm {
            let o = s.offset_in_shm as int;
            let k = choose|k: int| bm.in_use(a, k, o);
            bm.lemma_in_use(a, k, o);
            bm.lemma_list_of(a, k, o);
        }
    }
}

/// Slices that go back in two runs go back in one.
pub proof fn lemma_with_add(
    bm: BufferManager,
    f: Seq<Seq<int>>,
    c: Seq<u32>,
    x: Seq<BufferSlice>,
    y: Seq<BufferSlice>,
)
    ensures
        frees_with(bm, f, x + y) == frees_with(bm, frees_with(bm, f, x), y),
        counts_with(bm, c, x + y) == counts_with(bm, counts_with(bm, c, x), y),
    decreases y.len(),
{
    if y.len() == 0 {
        assert(x + y =~= x);
    } else {
        lemma_with_add(bm, f, c, x, y.drop_last());
        assert((x + y).drop_last() =~= x + y.drop_last());
    }
}

/// A first slice with nothing to read is given up before anything else.
pub proof fn lemma_spent_skip(ss: Seq<BufferSlice>, g: int, size: int)
    requires
        0 <= g <= 1,
        g <= ss.len(),
        size > 0,
        g == 1 ==> ss[0].read_index == ss[0].write_index,
    ensures
        spent(ss, size) == (g + spent(ss.skip(g), size).0, spent(ss.skip(g), size).1),
{
    assert(ss.skip(0) =~= ss);
}

} // verus!
