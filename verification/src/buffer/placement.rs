//! Where written bytes go: which slices are filled, and which are asked for.

use vstd::prelude::*;

use crate::buffer::linked::LinkedBuffer;
use crate::buffer::manager::BufferManager;
use crate::buffer::slice::BufferSlice;
use crate::consts::DEFAULT_SINGLE_BUFFER_SIZE;

verus! {

/// How many bytes can still be written to the slices.
pub open spec fn room(ss: Seq<BufferSlice>) -> int
    decreases ss.len(),
{
    if ss.len() == 0 {
        0
    } else {
        room(ss.drop_last()) + ss.last().cap - ss.last().write_index
    }
}

/// Of the free buffers `f` of every list, one alone holds `size` bytes: the first list with
/// buffers that large has one to spare.
pub open spec fn one_fits(bm: BufferManager, f: Seq<Seq<int>>, size: int) -> bool {
    &&& size <= bm.max_slice_size
    &&& bm.first_fit(size, 0) < bm.lists@.len()
    &&& f[bm.first_fit(size, 0)].len() > 1
}

/// The buffers that the region gives for `size` bytes, each as its list and its position in the
/// list: a single one that holds them all, else the largest first.
pub open spec fn region_part(bm: BufferManager, f: Seq<Seq<int>>, size: int) -> Seq<(int, int)> {
    if one_fits(bm, f, size) {
        let k = bm.first_fit(size, 0);
        seq![(k, f[k][0])]
    } else {
        bm.plan(f, bm.lists@.len() - 1, 0, size)
    }
}

/// How many of `size` bytes the region has no buffers for. There is nothing for the heap where this
/// is not positive.
pub open spec fn heap_part(bm: BufferManager, f: Seq<Seq<int>>, size: int) -> int {
    if one_fits(bm, f, size) {
        0
    } else {
        size - bm.taken_size(bm.plan(f, bm.lists@.len() - 1, 0, size))
    }
}

/// `s` is the buffer that `t` stands for.
pub open spec fn is_at(bm: BufferManager, t: (int, int), s: BufferSlice) -> bool {
    &&& 0 <= t.0 < bm.lists@.len()
    &&& s.is_shm_at(bm.lists@[t.0].region() + t.1, bm.lists@[t.0].cap_per_buffer as int)
}

/// The slices `ss` are those that come of asking for `size` bytes, on which the free buffers `f`
/// become `g`.
pub open spec fn supplied(
    bm: BufferManager,
    f: Seq<Seq<int>>,
    g: Seq<Seq<int>>,
    size: int,
    ss: Seq<BufferSlice>,
) -> bool {
    let taken = region_part(bm, f, size);
    let need = heap_part(bm, f, size);
    &&& g == BufferManager::without(f, taken)
    &&& ss.len() == taken.len() + if need > 0 {
        1int
    } else {
        0
    }
    &&& forall|k: int| 0 <= k < taken.len() ==> is_at(bm, taken[k], #[trigger] ss[k])
    &&& need > 0 ==> {
        &&& !ss.last().is_from_shm
        &&& ss.last().cap == if need < DEFAULT_SINGLE_BUFFER_SIZE {
            DEFAULT_SINGLE_BUFFER_SIZE as int
        } else {
            need
        }
    }
}

/// `t` is the buffer `s`; only what was written to it may differ.
pub open spec fn same_buffer(t: BufferSlice, s: BufferSlice) -> bool {
    &&& t.is_from_shm == s.is_from_shm
    &&& t.offset_in_shm == s.offset_in_shm
    &&& t.buffer_header == s.buffer_header
    &&& t.cap == s.cap
    &&& t.start == s.start
    &&& t.read_index == s.read_index
    &&& s.is_from_shm ==> t.data == s.data
}

/// The slice that the next write starts at.
pub open spec fn first_open(l: LinkedBuffer) -> int {
    match l.write_pos() {
        Some(w) => w,
        None => 0,
    }
}

/// How many bytes can be written before slices are asked for. Where no write was begun, that is
/// done at once.
pub open spec fn open_room(l: LinkedBuffer) -> int {
    match l.write_pos() {
        Some(w) => room(l.slices().skip(w)),
        None => 0,
    }
}

/// The slices from `start` to before `w` are written to the end.
pub open spec fn filled(ss: Seq<BufferSlice>, start: int, w: int) -> bool {
    forall|i: int| start <= i < w ==> (#[trigger] ss[i]).write_index == ss[i].cap
}

/// How far slice `w` was written before.
pub open spec fn written_before(l: LinkedBuffer, w: int) -> int {
    if w < l.slices().len() {
        l.slices()[w].write_index as int
    } else {
        0
    }
}

/// A write of `size` bytes makes `new_self` of `old_self`, and `g` of the free buffers `f`.
///
/// The slices are filled one after the other. Where they have room for all bytes, they stay as many
/// as they are. Else slices for the bytes that are left are asked for once. Then the buffer is one
/// of shared memory only if the heap had to give none of them. Of a write that is longer than one
/// request can be, nothing is said about what is asked for.
pub open spec fn placed(
    bm: BufferManager,
    f: Seq<Seq<int>>,
    old_self: LinkedBuffer,
    g: Seq<Seq<int>>,
    new_self: LinkedBuffer,
    size: int,
) -> bool {
    let n = old_self.slices().len() as int;
    let ss = new_self.slices();
    let left = size - open_room(old_self);
    &&& n <= ss.len()
    &&& match new_self.write_pos() {
        Some(w) => {
            &&& first_open(old_self) <= w < ss.len()
            &&& filled(ss, first_open(old_self), w)
            &&& written_before(old_self, w) < ss[w].write_index
        },
        None => false,
    }
    &&& if left <= 0 {
        &&& ss.len() == n
        &&& g == f
        &&& new_self.from_shm() == old_self.from_shm()
    } else {
        size <= u32::MAX ==> {
            &&& supplied(bm, f, g, left, ss.skip(n))
            &&& new_self.from_shm() == (old_self.from_shm() && heap_part(bm, f, left) <= 0)
        }
    }
}

/// Which slice takes `size` bytes in one piece, where the next write starts at slice `w`: that
/// one, else the one behind it, else a new one behind all.
pub open spec fn piece(ss: Seq<BufferSlice>, w: int, size: int) -> int {
    if size <= ss[w].cap - ss[w].write_index {
        w
    } else if w + 1 < ss.len() && size <= ss[w + 1].cap - ss[w + 1].write_index {
        w + 1
    } else {
        ss.len() as int
    }
}

/// `size` bytes in one piece are given away of `old_self`, in which a write was begun. That makes
/// `new_self` of it, and `g` of the free buffers `f`.
///
/// A new slice is a buffer of the region if one that is large enough can be had. Else it comes from
/// the heap, and the buffer is not one of shared memory any more.
pub open spec fn cut_off(
    bm: BufferManager,
    f: Seq<Seq<int>>,
    old_self: LinkedBuffer,
    g: Seq<Seq<int>>,
    new_self: LinkedBuffer,
    size: int,
) -> bool {
    let ss = old_self.slices();
    let tt = new_self.slices();
    let n = ss.len() as int;
    let i = piece(ss, first_open(old_self), size);
    &&& new_self.write_pos() == Some(i)
    &&& tt.len() == if i < n {
        n
    } else {
        n + 1
    }
    &&& forall|k: int|
        0 <= k < n ==> same_buffer(#[trigger] tt[k], ss[k]) && tt[k].write_index
            == ss[k].write_index + if k == i {
            size
        } else {
            0
        }
    &&& if i < n {
        &&& g == f
        &&& new_self.from_shm() == old_self.from_shm()
    } else if one_fits(bm, f, size) {
        let k = bm.first_fit(size, 0);
        &&& tt[n].write_index == size
        &&& is_at(bm, (k, f[k][0]), tt[n])
        &&& g == f.update(k, f[k].skip(1))
        &&& new_self.from_shm() == old_self.from_shm()
    } else {
        &&& tt[n].write_index == size
        &&& !tt[n].is_from_shm
        &&& tt[n].cap == if size < DEFAULT_SINGLE_BUFFER_SIZE {
            DEFAULT_SINGLE_BUFFER_SIZE as int
        } else {
            size
        }
        &&& g == f
        &&& !new_self.from_shm()
    }
}

/// Slices for `size` bytes are asked for, and a write is begun at the first slice.
pub open spec fn begun(
    bm: BufferManager,
    f: Seq<Seq<int>>,
    old_self: LinkedBuffer,
    g: Seq<Seq<int>>,
    new_self: LinkedBuffer,
    size: int,
) -> bool {
    let n = old_self.slices().len() as int;
    let ss = new_self.slices();
    &&& new_self.write_pos() == Some(0int)
    &&& n <= ss.len()
    &&& ss.take(n) == old_self.slices()
    &&& forall|i: int| n <= i < ss.len() ==> (#[trigger] ss[i]).is_fresh()
    &&& supplied(bm, f, g, size, ss.skip(n))
    &&& new_self.from_shm() == (old_self.from_shm() && heap_part(bm, f, size) <= 0)
}

/// `size` bytes in one piece are given away of `old_self`. That makes `new_self` of it, and `g` of
/// the free buffers `f`.
pub open spec fn reserved(
    bm: BufferManager,
    f: Seq<Seq<int>>,
    old_self: LinkedBuffer,
    g: Seq<Seq<int>>,
    new_self: LinkedBuffer,
    size: int,
) -> bool {
    match old_self.write_pos() {
        Some(_) => cut_off(bm, f, old_self, g, new_self, size),
        None => exists|h: Seq<Seq<int>>, mid: LinkedBuffer|
            {
                &&& #[trigger] begun(bm, f, old_self, h, mid, size)
                &&& cut_off(bm, h, mid, g, new_self, size)
            },
    }
}

/// A slice that is there takes the piece.
pub proof fn lemma_cut_here(
    bm: BufferManager,
    f: Seq<Seq<int>>,
    s1: LinkedBuffer,
    s2: LinkedBuffer,
    i: int,
    size: int,
)
    requires
        i == piece(s1.slices(), first_open(s1), size),
        0 <= i < s1.slices().len(),
        s2.write_pos() == Some(i),
        s2.from_shm() == s1.from_shm(),
        s2.slices() == s1.slices().update(i, s2.slices()[i]),
        same_buffer(s2.slices()[i], s1.slices()[i]),
        s2.slices()[i].write_index == s1.slices()[i].write_index + size,
    ensures
        cut_off(bm, f, s1, f, s2, size),
{
}

/// A new slice takes the piece.
pub proof fn lemma_cut_behind(
    bm: BufferManager,
    f: Seq<Seq<int>>,
    s1: LinkedBuffer,
    g: Seq<Seq<int>>,
    s2: LinkedBuffer,
    s3: LinkedBuffer,
    size: int,
)
    requires
        s1.slices().len() == piece(s1.slices(), first_open(s1), size),
        s2.slices().len() == s1.slices().len() + 1,
        s2.slices().take(s1.slices().len() as int) == s1.slices(),
        s2.slices().last().is_fresh(),
        ({
            let s = s2.slices().last();
            if one_fits(bm, f, size) {
                let k = bm.first_fit(size, 0);
                &&& is_at(bm, (k, f[k][0]), s)
                &&& g == f.update(k, f[k].skip(1))
                &&& s2.from_shm() == s1.from_shm()
            } else {
                &&& !s.is_from_shm
                &&& s.cap == if size < DEFAULT_SINGLE_BUFFER_SIZE {
                    DEFAULT_SINGLE_BUFFER_SIZE as int
                } else {
                    size
                }
                &&& g == f
                &&& !s2.from_shm()
            }
        }),
        s3.write_pos() == Some(s1.slices().len() as int),
        s3.from_shm() == s2.from_shm(),
        s3.slices() == s2.slices().update(s1.slices().len() as int, s3.slices().last()),
        same_buffer(s3.slices().last(), s2.slices().last()),
        s3.slices().last().write_index == size,
    ensures
        cut_off(bm, f, s1, g, s3, size),
{
    let n = s1.slices().len() as int;
    assert forall|k: int| 0 <= k < n implies #[trigger] s3.slices()[k] == s1.slices()[k] by {
        assert(s3.slices()[k] == s2.slices()[k]);
        assert(s2.slices()[k] == s2.slices().take(n)[k]);
    }
}

/// What is put into the piece does not change where it is.
pub proof fn lemma_reserved_kept(
    bm: BufferManager,
    f: Seq<Seq<int>>,
    s0: LinkedBuffer,
    g: Seq<Seq<int>>,
    s1: LinkedBuffer,
    s2: LinkedBuffer,
    size: int,
)
    requires
        reserved(bm, f, s0, g, s1, size),
        s2.write_pos() == s1.write_pos(),
        s2.from_shm() == s1.from_shm(),
        s2.slices().len() == s1.slices().len(),
        forall|k: int|
            0 <= k < s1.slices().len() ==> same_buffer(#[trigger] s2.slices()[k], s1.slices()[k])
                && s2.slices()[k].write_index == s1.slices()[k].write_index,
    ensures
        reserved(bm, f, s0, g, s2, size),
{
    if s0.write_pos() is Some {
        lemma_cut_off_kept(bm, f, s0, g, s1, s2, size);
    } else {
        let (h, mid) = choose|h: Seq<Seq<int>>, mid: LinkedBuffer|
            {
                &&& #[trigger] begun(bm, f, s0, h, mid, size)
                &&& cut_off(bm, h, mid, g, s1, size)
            };
        lemma_cut_off_kept(bm, h, mid, g, s1, s2, size);
        assert(begun(bm, f, s0, h, mid, size));
    }
}

proof fn lemma_cut_off_kept(
    bm: BufferManager,
    f: Seq<Seq<int>>,
    s0: LinkedBuffer,
    g: Seq<Seq<int>>,
    s1: LinkedBuffer,
    s2: LinkedBuffer,
    size: int,
)
    requires
        cut_off(bm, f, s0, g, s1, size),
        s2.write_pos() == s1.write_pos(),
        s2.from_shm() == s1.from_shm(),
        s2.slices().len() == s1.slices().len(),
        forall|k: int|
            0 <= k < s1.slices().len() ==> same_buffer(#[trigger] s2.slices()[k], s1.slices()[k])
                && s2.slices()[k].write_index == s1.slices()[k].write_index,
    ensures
        cut_off(bm, f, s0, g, s2, size),
{
    let n = s0.slices().len() as int;
    assert forall|k: int| 0 <= k < n implies same_buffer(
        #[trigger] s2.slices()[k],
        s0.slices()[k],
    ) && s2.slices()[k].write_index == s0.slices()[k].write_index + if k == piece(
        s0.slices(),
        first_open(s0),
        size,
    ) {
        size
    } else {
        0
    } by {
        assert(same_buffer(s1.slices()[k], s0.slices()[k]));
        assert(same_buffer(s2.slices()[k], s1.slices()[k]));
    }
    if s1.slices().len() > n {
        assert(same_buffer(s2.slices()[n], s1.slices()[n]));
    }
}

/// How many bytes the buffers hold that the lists up to list `i` have to spare: each list keeps its
/// last one. From list `i` the first `c` free buffers are gone already.
pub open spec fn spare(bm: BufferManager, f: Seq<Seq<int>>, i: int, c: int) -> int
    decreases i + 1, f[i].len() - c,
{
    if i < 0 {
        0
    } else if f[i].len() - c <= 1 {
        spare(bm, f, i - 1, 0)
    } else {
        bm.lists@[i].cap_per_buffer + spare(bm, f, i, c + 1)
    }
}

proof fn lemma_spare_nonnegative(bm: BufferManager, f: Seq<Seq<int>>, i: int, c: int)
    ensures
        spare(bm, f, i, c) >= 0,
    decreases i + 1, f[i].len() - c,
{
    if i < 0 {
    } else if f[i].len() - c <= 1 {
        lemma_spare_nonnegative(bm, f, i - 1, 0);
    } else {
        lemma_spare_nonnegative(bm, f, i, c + 1);
    }
}

/// A list with a buffer to spare adds to what there is to spare.
proof fn lemma_spare_list(bm: BufferManager, f: Seq<Seq<int>>, i: int, k: int)
    requires
        0 <= k <= i,
        f[k].len() > 1,
    ensures
        spare(bm, f, i, 0) >= bm.lists@[k].cap_per_buffer,
    decreases i,
{
    if i == k {
        lemma_spare_nonnegative(bm, f, i, 1);
    } else {
        lemma_spare_list(bm, f, i - 1, k);
        lemma_spare_below(bm, f, i, 0);
    }
}

/// The lists before list `i` have no more to spare than those up to it.
proof fn lemma_spare_below(bm: BufferManager, f: Seq<Seq<int>>, i: int, c: int)
    requires
        0 <= i,
    ensures
        spare(bm, f, i, c) >= spare(bm, f, i - 1, 0),
    decreases f[i].len() - c,
{
    if f[i].len() - c > 1 {
        lemma_spare_below(bm, f, i, c + 1);
    }
}

proof fn lemma_taken_front(bm: BufferManager, t: (int, int), rest: Seq<(int, int)>)
    ensures
        bm.taken_size(seq![t] + rest) == bm.lists@[t.0].cap_per_buffer + bm.taken_size(rest),
    decreases rest.len(),
{
    let all = seq![t] + rest;
    if rest.len() == 0 {
        assert(all.drop_last() =~= Seq::empty());
        assert(bm.taken_size(all.drop_last()) == 0);
    } else {
        lemma_taken_front(bm, t, rest.drop_last());
        assert(all.drop_last() =~= seq![t] + rest.drop_last());
        assert(all.last() == rest.last());
    }
}

/// What is taken holds the bytes asked for, or is all that there is to spare.
proof fn lemma_plan_size(bm: BufferManager, f: Seq<Seq<int>>, i: int, c: int, remain: int)
    ensures
        remain > 0 ==> (bm.taken_size(bm.plan(f, i, c, remain)) < remain <==> spare(bm, f, i, c)
            < remain),
    decreases i + 1, f[i].len() - c,
{
    if i < 0 || remain <= 0 {
    } else if f[i].len() - c <= 1 {
        lemma_plan_size(bm, f, i - 1, 0, remain);
    } else {
        let cap = bm.lists@[i].cap_per_buffer as int;
        lemma_taken_front(bm, (i, f[i][c]), bm.plan(f, i, c + 1, remain - cap));
        lemma_plan_size(bm, f, i, c + 1, remain - cap);
        lemma_spare_nonnegative(bm, f, i, c + 1);
    }
}

proof fn lemma_first_fit(bm: BufferManager, size: int, i: int)
    requires
        0 <= i,
    ensures
        i <= bm.first_fit(size, i),
        bm.first_fit(size, i) < bm.lists@.len() ==> size <= bm.lists@[bm.first_fit(
            size,
            i,
        )].cap_per_buffer,
    decreases bm.lists@.len() - i,
{
    if i < bm.lists@.len() && size > bm.lists@[i].cap_per_buffer {
        lemma_first_fit(bm, size, i + 1);
    }
}

/// The heap is asked for bytes only where the buffers that the region has to spare do not hold
/// them.
pub proof fn law_region_serves_first(bm: BufferManager, f: Seq<Seq<int>>, size: int)
    requires
        size > 0,
    ensures
        heap_part(bm, f, size) > 0 <==> spare(bm, f, bm.lists@.len() - 1, 0) < size,
{
    lemma_plan_size(bm, f, bm.lists@.len() - 1, 0, size);
    if one_fits(bm, f, size) {
        lemma_first_fit(bm, size, 0);
        lemma_spare_list(bm, f, bm.lists@.len() - 1, bm.first_fit(size, 0));
    }
}

/// Data that was written to a buffer of shared memory stays there, unless the bytes for which it
/// had no room are more than the region had to spare.
pub proof fn law_written_stays_shared(
    bm: BufferManager,
    f: Seq<Seq<int>>,
    old_self: LinkedBuffer,
    g: Seq<Seq<int>>,
    new_self: LinkedBuffer,
    size: int,
)
    requires
        0 < size <= u32::MAX,
        placed(bm, f, old_self, g, new_self, size),
    ensures
        new_self.from_shm() <==> old_self.from_shm() && (size <= open_room(old_self) || size
            - open_room(old_self) <= spare(bm, f, bm.lists@.len() - 1, 0)),
{
    let left = size - open_room(old_self);
    if left > 0 {
        law_region_serves_first(bm, f, left);
    }
}

pub proof fn lemma_room_split(ss: Seq<BufferSlice>, n: int)
    requires
        0 <= n <= ss.len(),
    ensures
        room(ss) == room(ss.take(n)) + room(ss.skip(n)),
    decreases ss.len(),
{
    if n == ss.len() {
        assert(ss.take(n) =~= ss);
        assert(ss.skip(n) =~= Seq::empty());
    } else {
        lemma_room_split(ss.drop_last(), n);
        assert(ss.drop_last().take(n) =~= ss.take(n));
        assert(ss.drop_last().skip(n) =~= ss.skip(n).drop_last());
    }
}

pub proof fn lemma_room_front(ss: Seq<BufferSlice>)
    requires
        ss.len() > 0,
    ensures
        room(ss) == ss[0].cap - ss[0].write_index + room(ss.skip(1)),
{
    lemma_room_split(ss, 1);
    assert(ss.take(1).drop_last() =~= Seq::empty());
    assert(room(ss.take(1).drop_last()) == 0);
}

pub proof fn lemma_room_nonnegative(ss: Seq<BufferSlice>)
    requires
        forall|i: int| 0 <= i < ss.len() ==> (#[trigger] ss[i]).write_index <= ss[i].cap,
    ensures
        room(ss) >= 0,
    decreases ss.len(),
{
    if ss.len() > 0 {
        assert forall|i: int| 0 <= i < ss.drop_last().len() implies (
        #[trigger] ss.drop_last()[i]).write_index <= ss.drop_last()[i].cap by {
            assert(ss.drop_last()[i] == ss[i]);
        }
        lemma_room_nonnegative(ss.drop_last());
    }
}

/// The buffers that the region gave have room for what they hold.
proof fn lemma_taken_room(bm: BufferManager, taken: Seq<(int, int)>, ss: Seq<BufferSlice>)
    requires
        ss.len() == taken.len(),
        forall|k: int| 0 <= k < taken.len() ==> is_at(bm, taken[k], #[trigger] ss[k]),
        forall|k: int| 0 <= k < ss.len() ==> (#[trigger] ss[k]).is_fresh(),
    ensures
        room(ss) == bm.taken_size(taken),
    decreases ss.len(),
{
    if ss.len() > 0 {
        let s = ss.drop_last();
        let t = taken.drop_last();
        assert forall|k: int| 0 <= k < t.len() implies is_at(bm, t[k], #[trigger] s[k]) by {
            assert(s[k] == ss[k]);
        }
        assert forall|k: int| 0 <= k < s.len() implies (#[trigger] s[k]).is_fresh() by {
            assert(s[k] == ss[k]);
        }
        lemma_taken_room(bm, t, s);
        assert(is_at(bm, taken[ss.len() - 1], ss[ss.len() - 1]));
        assert(ss[ss.len() - 1].is_fresh());
    }
}

/// The slices that come of asking for `size` bytes have room for them.
pub proof fn lemma_supplied_room(
    bm: BufferManager,
    f: Seq<Seq<int>>,
    g: Seq<Seq<int>>,
    size: int,
    ss: Seq<BufferSlice>,
)
    requires
        supplied(bm, f, g, size, ss),
        one_fits(bm, f, size) ==> size <= bm.lists@[bm.first_fit(size, 0)].cap_per_buffer,
        forall|k: int| 0 <= k < ss.len() ==> (#[trigger] ss[k]).is_fresh(),
    ensures
        room(ss) >= size,
{
    let taken = region_part(bm, f, size);
    let n = taken.len() as int;
    let head = ss.take(n);
    assert forall|k: int| 0 <= k < n implies is_at(bm, taken[k], #[trigger] head[k]) by {
        assert(head[k] == ss[k]);
    }
    lemma_taken_room(bm, taken, head);
    lemma_room_split(ss, n);
    if one_fits(bm, f, size) {
        let one = taken.drop_last();
        assert(one =~= Seq::empty());
        assert(bm.taken_size(one) == 0);
        assert(bm.taken_size(taken) == bm.lists@[bm.first_fit(size, 0)].cap_per_buffer);
        assert(ss.skip(n) =~= Seq::empty());
    } else if heap_part(bm, f, size) > 0 {
        let tail = ss.skip(n);
        assert(tail.len() == 1);
        assert(tail[0] == ss.last());
        assert(room(tail.drop_last()) == 0);
        assert(tail.last() == ss[n]);
        assert(ss[n].is_fresh());
    } else {
        assert(ss.skip(n) =~= Seq::empty());
    }
}

/// Writing to slices leaves them the ones that were asked for.
proof fn lemma_supplied_kept(
    bm: BufferManager,
    f: Seq<Seq<int>>,
    g: Seq<Seq<int>>,
    size: int,
    ss: Seq<BufferSlice>,
    tt: Seq<BufferSlice>,
)
    requires
        supplied(bm, f, g, size, ss),
        tt.len() == ss.len(),
        forall|k: int| 0 <= k < ss.len() ==> same_buffer(#[trigger] tt[k], ss[k]),
    ensures
        supplied(bm, f, g, size, tt),
{
    let taken = region_part(bm, f, size);
    assert forall|k: int| 0 <= k < taken.len() implies is_at(bm, taken[k], #[trigger] tt[k]) by {
        assert(is_at(bm, taken[k], ss[k]));
        assert(same_buffer(tt[k], ss[k]));
    }
    if ss.len() > 0 {
        assert(same_buffer(tt[ss.len() - 1], ss[ss.len() - 1]));
    }
}

/// On the way of a write of `total` bytes from `s0` and the free buffers `f0`, `n` bytes are
/// written; `asked` tells whether slices were asked for.
#[verifier::opaque]
pub open spec fn writing(
    bm: BufferManager,
    f0: Seq<Seq<int>>,
    s0: LinkedBuffer,
    total: int,
    f: Seq<Seq<int>>,
    s: LinkedBuffer,
    n: int,
    asked: bool,
) -> bool {
    let n0 = s0.slices().len() as int;
    let ss = s.slices();
    let left = total - open_room(s0);
    match s.write_pos() {
        Some(w) => {
            &&& 0 <= first_open(s0) <= w < ss.len()
            &&& n0 <= ss.len()
            &&& filled(ss, first_open(s0), w)
            &&& if asked {
                &&& left > 0
                &&& total <= u32::MAX ==> {
                    &&& supplied(bm, f0, f, left, ss.skip(n0))
                    &&& s.from_shm() == (s0.from_shm() && heap_part(bm, f0, left) <= 0)
                    &&& room(ss.skip(w)) >= total - n
                }
            } else {
                &&& s0.write_pos() is Some
                &&& ss.len() == n0
                &&& f == f0
                &&& s.from_shm() == s0.from_shm()
                &&& n + room(ss.skip(w)) == open_room(s0)
            }
        },
        None => false,
    }
}

/// A write begins at the slice that takes the next write.
pub proof fn lemma_begins(bm: BufferManager, f0: Seq<Seq<int>>, s0: LinkedBuffer, total: int)
    requires
        s0.write_pos() matches Some(w) && 0 <= w < s0.slices().len(),
    ensures
        writing(bm, f0, s0, total, f0, s0, 0, false),
{
    reveal(writing);
}

/// Where no write was begun, slices are asked for first.
pub proof fn lemma_begins_asking(
    bm: BufferManager,
    f0: Seq<Seq<int>>,
    s0: LinkedBuffer,
    total: int,
    f: Seq<Seq<int>>,
    s: LinkedBuffer,
)
    requires
        total > 0,
        s0.write_pos() is None,
        s.write_pos() == Some(0int),
        s0.slices().len() < s.slices().len(),
        s.slices().take(s0.slices().len() as int) == s0.slices(),
        forall|i: int| 0 <= i < s0.slices().len() ==> (#[trigger] s0.slices()[i]).write_index
            <= s0.slices()[i].cap,
        total <= u32::MAX ==> {
            &&& supplied(bm, f0, f, total, s.slices().skip(s0.slices().len() as int))
            &&& s.from_shm() == (s0.from_shm() && heap_part(bm, f0, total) <= 0)
            &&& room(s.slices().skip(s0.slices().len() as int)) >= total
        },
    ensures
        writing(bm, f0, s0, total, f, s, 0, true),
{
    reveal(writing);
    let n0 = s0.slices().len() as int;
    lemma_room_split(s.slices(), n0);
    lemma_room_nonnegative(s0.slices());
    assert(s.slices().skip(0) =~= s.slices());
}

/// `k` bytes are written to the slice that takes the next write.
pub proof fn lemma_writes(
    bm: BufferManager,
    f0: Seq<Seq<int>>,
    s0: LinkedBuffer,
    total: int,
    f: Seq<Seq<int>>,
    s1: LinkedBuffer,
    s2: LinkedBuffer,
    n: int,
    k: int,
    asked: bool,
)
    requires
        writing(bm, f0, s0, total, f, s1, n, asked),
        s2.write_pos() == s1.write_pos(),
        s2.from_shm() == s1.from_shm(),
        s1.write_pos() matches Some(w) ==> {
            let t = s2.slices()[w];
            &&& s2.slices() == s1.slices().update(w, t)
            &&& same_buffer(t, s1.slices()[w])
            &&& t.write_index == s1.slices()[w].write_index + k
        },
    ensures
        writing(bm, f0, s0, total, f, s2, n + k, asked),
{
    reveal(writing);
    let w = s1.write_pos()->0;
    let n0 = s0.slices().len() as int;
    let ss = s1.slices();
    let tt = s2.slices();
    lemma_room_front(ss.skip(w));
    lemma_room_front(tt.skip(w));
    assert(ss.skip(w).skip(1) =~= tt.skip(w).skip(1));
    assert forall|i: int| first_open(s0) <= i < w implies (#[trigger] tt[i]).write_index
        == tt[i].cap by {
        assert(tt[i] == ss[i]);
    }
    if asked && total <= u32::MAX {
        assert forall|i: int| 0 <= i < ss.skip(n0).len() implies same_buffer(
            #[trigger] tt.skip(n0)[i],
            ss.skip(n0)[i],
        ) by {
            assert(tt.skip(n0)[i] == tt[n0 + i]);
            assert(ss.skip(n0)[i] == ss[n0 + i]);
        }
        lemma_supplied_kept(bm, f0, f, total - open_room(s0), ss.skip(n0), tt.skip(n0));
    }
}

/// The last slice is full, and slices for the bytes that are left are asked for.
pub proof fn lemma_asks(
    bm: BufferManager,
    f0: Seq<Seq<int>>,
    s0: LinkedBuffer,
    total: int,
    f1: Seq<Seq<int>>,
    s1: LinkedBuffer,
    f2: Seq<Seq<int>>,
    s2: LinkedBuffer,
    n: int,
    asked: bool,
)
    requires
        writing(bm, f0, s0, total, f1, s1, n, asked),
        n < total,
        s1.write_pos() == Some(s1.slices().len() - 1),
        s1.slices().last().write_index == s1.slices().last().cap,
        s2.write_pos() == s1.write_pos(),
        s1.slices().len() < s2.slices().len(),
        s2.slices().take(s1.slices().len() as int) == s1.slices(),
        total <= u32::MAX ==> {
            &&& supplied(bm, f1, f2, total - n, s2.slices().skip(s1.slices().len() as int))
            &&& s2.from_shm() == (s1.from_shm() && heap_part(bm, f1, total - n) <= 0)
            &&& room(s2.slices().skip(s1.slices().len() as int)) >= total - n
        },
    ensures
        writing(bm, f0, s0, total, f2, s2, n, true),
{
    reveal(writing);
    let ss = s1.slices();
    let tt = s2.slices();
    let w = ss.len() - 1;
    lemma_room_front(ss.skip(w));
    assert(ss.skip(w).skip(1) =~= Seq::empty());
    assert(ss.skip(w)[0] == ss.last());
    lemma_room_front(tt.skip(w));
    assert(tt.skip(w).skip(1) =~= tt.skip(w + 1));
    assert(tt[w] == tt.take(ss.len() as int)[w]);
    assert forall|i: int| first_open(s0) <= i < w implies (#[trigger] tt[i]).write_index
        == tt[i].cap by {
        assert(tt[i] == tt.take(ss.len() as int)[i]);
        assert(tt[i] == ss[i]);
    }
}

/// The slice that takes the next write is full, and the one behind it takes over.
pub proof fn lemma_goes_on(
    bm: BufferManager,
    f0: Seq<Seq<int>>,
    s0: LinkedBuffer,
    total: int,
    f: Seq<Seq<int>>,
    s1: LinkedBuffer,
    s2: LinkedBuffer,
    n: int,
    asked: bool,
)
    requires
        writing(bm, f0, s0, total, f, s1, n, asked),
        s2.slices() == s1.slices(),
        s2.from_shm() == s1.from_shm(),
        s1.write_pos() matches Some(w) ==> {
            &&& w + 1 < s1.slices().len()
            &&& s2.write_pos() == Some(w + 1)
            &&& s1.slices()[w].write_index == s1.slices()[w].cap
        },
    ensures
        writing(bm, f0, s0, total, f, s2, n, asked),
{
    reveal(writing);
    let ss = s1.slices();
    let w = s1.write_pos()->0;
    lemma_room_front(ss.skip(w));
    assert(ss.skip(w).skip(1) =~= ss.skip(w + 1));
}

/// All bytes are written.
pub proof fn lemma_ends(
    bm: BufferManager,
    f0: Seq<Seq<int>>,
    s0: LinkedBuffer,
    total: int,
    f: Seq<Seq<int>>,
    s: LinkedBuffer,
    asked: bool,
)
    requires
        writing(bm, f0, s0, total, f, s, total, asked),
        s.write_pos() matches Some(w) ==> written_before(s0, w) < s.slices()[w].write_index,
        forall|i: int| 0 <= i < s.slices().len() ==> (#[trigger] s.slices()[i]).write_index
            <= s.slices()[i].cap,
    ensures
        placed(bm, f0, s0, f, s, total),
{
    reveal(writing);
    let w = s.write_pos()->0;
    let rest = s.slices().skip(w);
    assert forall|i: int| 0 <= i < rest.len() implies (#[trigger] rest[i]).write_index
        <= rest[i].cap by {
        assert(rest[i] == s.slices()[w + i]);
    }
    lemma_room_nonnegative(rest);
}

} // verus!
