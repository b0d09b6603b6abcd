//! Buffer slices: one buffer each, in shared memory or on the heap, and lists of them.

use vstd::prelude::*;

use crate::buffer::manager::{
    BUFFER_CAP_OFFSET, BUFFER_DATA_START_OFFSET, BUFFER_FLAG_OFFSET, BUFFER_HEADER_SIZE,
    BUFFER_SIZE_OFFSET, HAS_NEXT_BUFFER_FLAG, NEXT_BUFFER_OFFSET, SLICE_IN_USED_FLAG,
};
use crate::error::Error;
use crate::mem;

verus! {

/// The capacity word of the buffer header at `o`.
pub open spec fn header_cap(m: Seq<u8>, o: int) -> u32 {
    mem::u32_at(m, o + BUFFER_CAP_OFFSET)
}

/// The size word of the buffer header at `o`.
pub open spec fn header_size(m: Seq<u8>, o: int) -> u32 {
    mem::u32_at(m, o + BUFFER_SIZE_OFFSET)
}

/// The start word of the buffer header at `o`.
pub open spec fn header_start(m: Seq<u8>, o: int) -> u32 {
    mem::u32_at(m, o + BUFFER_DATA_START_OFFSET)
}

/// The next word of the buffer header at `o`.
pub open spec fn header_next(m: Seq<u8>, o: int) -> u32 {
    mem::u32_at(m, o + NEXT_BUFFER_OFFSET)
}

/// The flag byte of the buffer header at `o`.
pub open spec fn header_flag(m: Seq<u8>, o: int) -> u8 {
    m[o + BUFFER_FLAG_OFFSET]
}

/// Whether a flag byte says that another buffer follows.
pub open spec fn flag_has_next(flag: u8) -> bool {
    flag & HAS_NEXT_BUFFER_FLAG > 0
}

/// Whether a flag byte says that the buffer is in use.
pub open spec fn flag_in_used(flag: u8) -> bool {
    flag & SLICE_IN_USED_FLAG > 0
}

/// How the two flags go in and out of a flag byte.
pub proof fn lemma_flags(flag: u8)
    ensures
        !flag_has_next(0),
        !flag_in_used(0),
        flag_has_next(flag | HAS_NEXT_BUFFER_FLAG),
        flag_in_used(flag | SLICE_IN_USED_FLAG),
        flag_in_used(flag | HAS_NEXT_BUFFER_FLAG) == flag_in_used(flag),
        flag_has_next(flag | SLICE_IN_USED_FLAG) == flag_has_next(flag),
{
    assert(0u8 & 1u8 == 0u8 && 0u8 & 2u8 == 0u8) by (bit_vector);
    assert((flag | 1u8) & 1u8 == 1u8 && (flag | 2u8) & 2u8 == 2u8 && (flag | 1u8) & 2u8 == flag
        & 2u8 && (flag | 2u8) & 1u8 == flag & 1u8) by (bit_vector);
}

/// The header of a buffer, found by its position in the region.
///
/// Layout: capacity 4, size 4, start 4, next 4, flag 2, unused 2.
#[derive(Clone, Copy, Debug, PartialEq, Eq, Structural)]
pub struct BufferHeader(pub usize);

impl BufferHeader {
    /// The header lies inside the region.
    pub open spec fn fits(self, m: Seq<u8>) -> bool {
        self.0 + BUFFER_HEADER_SIZE <= m.len()
    }

    pub fn next_buffer_offset(&self, mem: &[u8]) -> (r: u32)
        requires
            self.fits(mem@),
        ensures
            r == header_next(mem@, self.0 as int),
    {
        assert(mem@.len() == mem.len());
        mem::get_u32(mem, self.0 + NEXT_BUFFER_OFFSET as usize)
    }

    pub fn has_next(&self, mem: &[u8]) -> (r: bool)
        requires
            self.fits(mem@),
        ensures
            r == flag_has_next(header_flag(mem@, self.0 as int)),
    {
        assert(mem@.len() == mem.len());
        mem[self.0 + BUFFER_FLAG_OFFSET as usize] & HAS_NEXT_BUFFER_FLAG > 0
    }

    pub fn clear_flag(&self, mem: &mut [u8])
        requires
            self.fits(old(mem)@),
        ensures
            final(mem)@ == mem::put_bytes(old(mem)@, self.0 + BUFFER_FLAG_OFFSET, seq![0u8]),
    {
        assert(mem@.len() == mem.len());
        mem::set_u8(mem, self.0 + BUFFER_FLAG_OFFSET as usize, 0);
    }

    pub fn set_in_used(&self, mem: &mut [u8])
        requires
            self.fits(old(mem)@),
        ensures
            final(mem)@ == mem::put_bytes(
                old(mem)@,
                self.0 + BUFFER_FLAG_OFFSET,
                seq![header_flag(old(mem)@, self.0 as int) | SLICE_IN_USED_FLAG],
            ),
    {
        assert(mem@.len() == mem.len());
        let o: usize = self.0 + BUFFER_FLAG_OFFSET as usize;
        let flag: u8 = mem[o];
        mem::set_u8(mem, o, flag | SLICE_IN_USED_FLAG);
    }

    pub fn is_in_used(&self, mem: &[u8]) -> (r: bool)
        requires
            self.fits(mem@),
        ensures
            r == flag_in_used(header_flag(mem@, self.0 as int)),
    {
        assert(mem@.len() == mem.len());
        mem[self.0 + BUFFER_FLAG_OFFSET as usize] & SLICE_IN_USED_FLAG > 0
    }

    /// Names the buffer that follows and sets the flag that says so.
    pub fn link_next(&self, mem: &mut [u8], next: u32)
        requires
            self.fits(old(mem)@),
        ensures
            final(mem)@ == mem::put_bytes(
                mem::put_bytes(old(mem)@, self.0 + NEXT_BUFFER_OFFSET, mem::le32(next)),
                self.0 + BUFFER_FLAG_OFFSET,
                seq![header_flag(old(mem)@, self.0 as int) | HAS_NEXT_BUFFER_FLAG],
            ),
    {
        broadcast use mem::group_mem;

        assert(mem@.len() == mem.len());
        mem::set_u32(mem, self.0 + NEXT_BUFFER_OFFSET as usize, next);
        let o: usize = self.0 + BUFFER_FLAG_OFFSET as usize;
        let flag: u8 = mem[o];
        mem::set_u8(mem, o, flag | HAS_NEXT_BUFFER_FLAG);
    }

    pub fn cap(&self, mem: &[u8]) -> (r: u32)
        requires
            self.fits(mem@),
        ensures
            r == header_cap(mem@, self.0 as int),
    {
        assert(mem@.len() == mem.len());
        mem::get_u32(mem, self.0 + BUFFER_CAP_OFFSET as usize)
    }

    pub fn size(&self, mem: &[u8]) -> (r: u32)
        requires
            self.fits(mem@),
        ensures
            r == header_size(mem@, self.0 as int),
    {
        assert(mem@.len() == mem.len());
        mem::get_u32(mem, self.0 + BUFFER_SIZE_OFFSET as usize)
    }

    pub fn set_size(&self, mem: &mut [u8], size: u32)
        requires
            self.fits(old(mem)@),
        ensures
            final(mem)@ == mem::put_bytes(
                old(mem)@,
                self.0 + BUFFER_SIZE_OFFSET,
                mem::le32(size),
            ),
    {
        assert(mem@.len() == mem.len());
        mem::set_u32(mem, self.0 + BUFFER_SIZE_OFFSET as usize, size);
    }

    pub fn start(&self, mem: &[u8]) -> (r: u32)
        requires
            self.fits(mem@),
        ensures
            r == header_start(mem@, self.0 as int),
    {
        assert(mem@.len() == mem.len());
        mem::get_u32(mem, self.0 + BUFFER_DATA_START_OFFSET as usize)
    }

    pub fn set_start(&self, mem: &mut [u8], start: u32)
        requires
            self.fits(old(mem)@),
        ensures
            final(mem)@ == mem::put_bytes(
                old(mem)@,
                self.0 + BUFFER_DATA_START_OFFSET,
                mem::le32(start),
            ),
    {
        assert(mem@.len() == mem.len());
        mem::set_u32(mem, self.0 + BUFFER_DATA_START_OFFSET as usize, start);
    }
}

/// Where the bytes of a slice are.
#[derive(Debug)]
pub enum SliceData {
    /// In the region, from this position on.
    Shm(usize),
    /// On the heap.
    Heap(Vec<u8>),
}

/// One buffer with a read and a write position.
#[derive(Debug)]
pub struct BufferSlice {
    pub buffer_header: Option<BufferHeader>,
    pub data: SliceData,
    pub cap: u32,
    /// Where the bytes start; room in front of them is for prepending.
    pub start: u32,
    pub offset_in_shm: u32,
    pub read_index: usize,
    pub write_index: usize,
    pub is_from_shm: bool,
}

impl BufferSlice {
    /// The bytes of the whole buffer, used and unused.
    pub open spec fn bytes(self, m: Seq<u8>) -> Seq<u8> {
        match self.data {
            SliceData::Shm(p) => m.subrange(p as int, p + self.cap),
            SliceData::Heap(v) => v@,
        }
    }

    /// The bytes that were written and not yet read.
    pub open spec fn unread(self, m: Seq<u8>) -> Seq<u8> {
        self.bytes(m).subrange(self.read_index as int, self.write_index as int)
    }

    /// The buffer lies inside the region (or on the heap) and the positions are in order.
    pub open spec fn wf(self, m: Seq<u8>) -> bool {
        &&& self.read_index <= self.write_index <= self.cap
        &&& match self.data {
            SliceData::Shm(p) => {
                &&& p + self.cap <= m.len()
                &&& self.buffer_header matches Some(h) ==> h.0 + BUFFER_HEADER_SIZE <= p
            },
            SliceData::Heap(v) => v@.len() == self.cap && self.buffer_header is None,
        }
    }

    /// Whether the slice is a well-formed one of the heap.
    pub fn is_on_heap(&self) -> (r: bool)
        ensures
            r == (!self.is_from_shm && self.data is Heap && self.data->Heap_0@.len() == self.cap
                && self.buffer_header is None && self.read_index <= self.write_index <= self.cap),
    {
        match &self.data {
            SliceData::Heap(v) => !self.is_from_shm && self.buffer_header.is_none() && v.len()
                == self.cap as usize && self.read_index <= self.write_index && self.write_index
                <= self.cap as usize,
            SliceData::Shm(_) => false,
        }
    }

    /// The slice is the buffer of capacity `cap` whose header stands at `o`.
    pub open spec fn is_shm_at(self, o: int, cap: int) -> bool {
        &&& self.buffer_header == Some(BufferHeader(o as usize))
        &&& self.data == SliceData::Shm((o + BUFFER_HEADER_SIZE) as usize)
        &&& self.cap == cap
        &&& self.offset_in_shm == o
        &&& self.is_from_shm
    }

    /// Nothing was written to the slice.
    pub open spec fn is_fresh(self) -> bool {
        &&& self.start == 0
        &&& self.read_index == 0
        &&& self.write_index == 0
    }

    /// A slice over `data`. A slice of shared memory with a header takes its capacity and its
    /// positions from the header.
    pub fn new(
        mem: &[u8],
        header: Option<BufferHeader>,
        data: SliceData,
        len: u32,
        offset_in_shm: u32,
        is_from_shm: bool,
    ) -> (r: Self)
        requires
            is_from_shm ==> (header matches Some(h) ==> h.fits(mem@) && header_start(
                mem@,
                h.0 as int,
            ) + header_size(mem@, h.0 as int) <= u32::MAX),
        ensures
            r.data == data,
            r.offset_in_shm == offset_in_shm,
            r.is_from_shm == is_from_shm,
            r.read_index == 0,
            match header {
                Some(h) if is_from_shm => {
                    &&& r.buffer_header == Some(h)
                    &&& r.cap == header_cap(mem@, h.0 as int)
                    &&& r.start == header_start(mem@, h.0 as int)
                    &&& r.write_index == header_start(mem@, h.0 as int) + header_size(
                        mem@,
                        h.0 as int,
                    )
                },
                _ => {
                    &&& r.buffer_header is None
                    &&& r.cap == len
                    &&& r.start == 0
                    &&& r.write_index == 0
                },
            },
    {
        let mut s = BufferSlice {
            buffer_header: None,
            data,
            cap: 0,
            start: 0,
            offset_in_shm,
            read_index: 0,
            write_index: 0,
            is_from_shm,
        };
        match header {
            Some(h) if is_from_shm => {
                s.cap = h.cap(mem);
                s.start = h.start(mem);
                s.write_index = (s.start + h.size(mem)) as usize;
                s.buffer_header = Some(h);
            },
            _ => {
                s.cap = len;
            },
        }
        s
    }

    /// A slice over a heap buffer with nothing written to it.
    pub fn new_heap(data: Vec<u8>) -> (r: Self)
        requires
            data@.len() <= u32::MAX,
        ensures
            r.data == SliceData::Heap(data),
            r.buffer_header is None,
            r.cap == data@.len(),
            r.start == 0,
            r.offset_in_shm == 0,
            r.read_index == 0,
            r.write_index == 0,
            !r.is_from_shm,
    {
        let cap: u32 = data.len() as u32;
        BufferSlice {
            buffer_header: None,
            data: SliceData::Heap(data),
            cap,
            start: 0,
            offset_in_shm: 0,
            read_index: 0,
            write_index: 0,
            is_from_shm: false,
        }
    }

    /// What [`BufferSlice::update`] makes of a region.
    pub open spec fn updated(self, m: Seq<u8>, next: Option<u32>) -> Seq<u8> {
        match self.buffer_header {
            Some(h) => {
                let m1 = mem::put_bytes(
                    m,
                    h.0 + BUFFER_SIZE_OFFSET,
                    mem::le32((self.write_index - self.read_index) as u32),
                );
                let m2 = mem::put_bytes(m1, h.0 + BUFFER_DATA_START_OFFSET, mem::le32(self.start));
                match next {
                    Some(n) => mem::put_bytes(
                        mem::put_bytes(m2, h.0 + NEXT_BUFFER_OFFSET, mem::le32(n)),
                        h.0 + BUFFER_FLAG_OFFSET,
                        seq![header_flag(m, h.0 as int) | HAS_NEXT_BUFFER_FLAG],
                    ),
                    None => m2,
                }
            },
            None => m,
        }
    }

    /// Records size, start and the following slice in the header.
    pub fn update(&self, mem: &mut [u8], next: Option<u32>)
        requires
            self.wf(old(mem)@),
            self.buffer_header matches Some(h) ==> h.fits(old(mem)@),
        ensures
            final(mem)@ == self.updated(old(mem)@, next),
    {
        broadcast use mem::group_mem;

        if let Some(h) = &self.buffer_header {
            h.set_size(mem, self.size() as u32);
            h.set_start(mem, self.start);
            if let Some(n) = next {
                h.link_next(mem, n);
            }
        }
    }

    /// What [`BufferSlice::reset`] makes of a region.
    pub open spec fn reset_region(self, m: Seq<u8>) -> Seq<u8> {
        match self.buffer_header {
            Some(h) => mem::put_bytes(
                mem::put_bytes(
                    mem::put_bytes(m, h.0 + BUFFER_SIZE_OFFSET, mem::le32(0)),
                    h.0 + BUFFER_DATA_START_OFFSET,
                    mem::le32(0),
                ),
                h.0 + BUFFER_FLAG_OFFSET,
                seq![0u8],
            ),
            None => m,
        }
    }

    /// Clears the header and the positions.
    pub fn reset(&mut self, mem: &mut [u8])
        requires
            old(self).buffer_header matches Some(h) ==> h.fits(old(mem)@),
        ensures
            final(mem)@ == old(self).reset_region(old(mem)@),
            *final(self) == (BufferSlice { read_index: 0, write_index: 0, ..*old(self) }),
    {
        broadcast use mem::group_mem;

        if let Some(h) = &self.buffer_header {
            h.set_size(mem, 0);
            h.set_start(mem, 0);
            h.clear_flag(mem);
        }
        self.write_index = 0;
        self.read_index = 0;
    }

    /// Clears the header and the positions, and marks the buffer as in use: it stays with its
    /// owner and takes the next write.
    pub fn reset_for_reuse(&mut self, mem: &mut [u8])
        requires
            old(self).buffer_header matches Some(h) ==> h.fits(old(mem)@),
        ensures
            final(mem)@ == match old(self).buffer_header {
                Some(h) => mem::put_bytes(
                    old(self).reset_region(old(mem)@),
                    h.0 + BUFFER_FLAG_OFFSET,
                    seq![0u8 | SLICE_IN_USED_FLAG],
                ),
                None => old(mem)@,
            },
            *final(self) == (BufferSlice { read_index: 0, write_index: 0, ..*old(self) }),
    {
        broadcast use mem::group_mem;

        self.reset(mem);
        if let Some(h) = &self.buffer_header {
            h.set_in_used(mem);
        }
    }

    /// How many bytes are there to read.
    pub fn size(&self) -> (r: usize)
        requires
            self.read_index <= self.write_index,
        ensures
            r == self.write_index - self.read_index,
    {
        self.write_index - self.read_index
    }

    /// How many bytes there is room for.
    pub fn remain(&self) -> (r: usize)
        requires
            self.write_index <= self.cap,
        ensures
            r == self.cap - self.write_index,
    {
        self.cap as usize - self.write_index
    }

    pub fn capacity(&self) -> (r: usize)
        ensures
            r == self.cap,
    {
        self.cap as usize
    }

    /// Hands out the next `size` bytes to be written, if there is room for them.
    pub fn reserve<'a>(&'a mut self, mem: &'a mut [u8], size: usize) -> (r: Result<
        &'a mut [u8],
        Error,
    >)
        requires
            old(self).wf(old(mem)@),
        ensures
            r is Ok <==> size <= old(self).cap - old(self).write_index,
            match r {
                Err(e) => e == Error::NoMoreBuffer && *final(self) == *old(self) && final(mem)@
                    == old(mem)@,
                Ok(out) => {
                    let at = old(self).write_index as int;
                    &&& out@ == old(self).bytes(old(mem)@).subrange(at, at + size)
                    &&& match old(self).data {
                        SliceData::Shm(p) => {
                            &&& final(out)@.len() == size ==> final(mem)@ == mem::put_bytes(
                                old(mem)@,
                                p + at,
                                final(out)@,
                            )
                            &&& *final(self) == (BufferSlice {
                                write_index: (at + size) as usize,
                                ..*old(self)
                            })
                        },
                        SliceData::Heap(v) => {
                            &&& final(mem)@ == old(mem)@
                            &&& final(self).data matches SliceData::Heap(w) && (
                            final(out)@.len() == size ==> w@ == mem::put_bytes(
                                v@,
                                at,
                                final(out)@,
                            ))
                            &&& *final(self) == (BufferSlice {
                                write_index: (at + size) as usize,
                                data: final(self).data,
                                ..*old(self)
                            })
                        },
                    }
                },
            },
    {
        let start: usize = self.write_index;
        let remain: usize = self.remain();
        if remain < size {
            return Err(Error::NoMoreBuffer);
        }
        self.write_index = start + size;
        Ok(self.window(mem, start, size))
    }

    /// `self` in `m` is `s` of `a` with perhaps more written to it: what was written stays.
    pub open spec fn grew_from(self, m: Seq<u8>, s: BufferSlice, a: Seq<u8>) -> bool {
        &&& self.is_from_shm == s.is_from_shm
        &&& self.offset_in_shm == s.offset_in_shm
        &&& self.buffer_header == s.buffer_header
        &&& self.cap == s.cap
        &&& self.start == s.start
        &&& self.read_index == s.read_index
        &&& s.write_index <= self.write_index
        &&& self.bytes(m).take(s.write_index as int) == s.bytes(a).take(s.write_index as int)
    }

    /// The `size` bytes from position `at` of the buffer on, for writing.
    pub fn window<'a>(&'a mut self, mem: &'a mut [u8], at: usize, size: usize) -> (out: &'a mut [u8])
        requires
            old(self).wf(old(mem)@),
            at + size <= old(self).cap,
        ensures
            out@ == old(self).bytes(old(mem)@).subrange(at as int, at + size),
            match old(self).data {
                SliceData::Shm(p) => {
                    &&& final(out)@.len() == size ==> final(mem)@ == mem::put_bytes(
                        old(mem)@,
                        p + at,
                        final(out)@,
                    )
                    &&& *final(self) == *old(self)
                },
                SliceData::Heap(v) => {
                    &&& final(mem)@ == old(mem)@
                    &&& final(self).data matches SliceData::Heap(u) && (final(out)@.len() == size
                        ==> u@ == mem::put_bytes(v@, at as int, final(out)@))
                    &&& *final(self) == (BufferSlice { data: final(self).data, ..*old(self) })
                },
            },
    {
        assert(mem@.len() == mem.len());
        match &mut self.data {
            SliceData::Shm(p) => {
                assert(mem@.subrange(*p + at, *p + at + size) =~= mem@.subrange(
                    *p as int,
                    *p + self.cap,
                ).subrange(at as int, at + size));
                mem::window(mem, *p + at, size)
            },
            SliceData::Heap(v) => mem::window(v.as_mut_slice(), at, size),
        }
    }

    /// The number of bytes of `len` that there is room for.
    pub open spec fn room_for(self, len: int) -> int {
        if len <= self.cap - self.write_index {
            len
        } else {
            self.cap - self.write_index
        }
    }

    /// The number of bytes of `len` that there are to read.
    pub open spec fn at_hand(self, len: int) -> int {
        if len <= self.write_index - self.read_index {
            len
        } else {
            self.write_index - self.read_index
        }
    }

    /// Copies as much of `data` as there is room for behind what was written before.
    pub fn append(&mut self, mem: &mut [u8], data: &[u8]) -> (n: usize)
        requires
            old(self).wf(old(mem)@),
        ensures
            n == old(self).room_for(data@.len() as int),
            final(self).wf(final(mem)@),
            final(self).unread(final(mem)@) == old(self).unread(old(mem)@) + data@.take(n as int),
            final(self).grew_from(final(mem)@, *old(self), old(mem)@),
            *final(self) == (BufferSlice {
                write_index: (old(self).write_index + n) as usize,
                data: final(self).data,
                ..*old(self)
            }),
            match old(self).data {
                SliceData::Shm(p) => {
                    &&& final(self).data == old(self).data
                    &&& final(mem)@ == mem::put_bytes(
                        old(mem)@,
                        p + old(self).write_index,
                        data@.take(n as int),
                    )
                },
                SliceData::Heap(_) => final(self).data is Heap && final(mem)@ == old(mem)@,
            },
    {
        broadcast use mem::group_mem;

        let ghost s0 = *self;
        let ghost m0 = mem@;
        let remain: usize = self.remain();
        let copy_size: usize = if data.len() <= remain {
            data.len()
        } else {
            remain
        };
        let at: usize = self.write_index;
        assert(mem@.len() == mem.len());
        let part = vstd::slice::slice_subrange(data, 0, copy_size);
        assert(part@ =~= data@.take(copy_size as int));
        match &mut self.data {
            SliceData::Shm(p) => {
                mem::set_bytes(mem, *p + at, part);
            },
            SliceData::Heap(v) => {
                mem::set_bytes(v.as_mut_slice(), at, part);
            },
        }
        self.write_index = at + copy_size;
        assert(self.unread(mem@) =~= s0.unread(m0) + data@.take(copy_size as int));
        assert(self.bytes(mem@).take(at as int) =~= s0.bytes(m0).take(at as int));
        copy_size
    }

    /// Takes out the next `size` bytes, or as many as there are.
    #[must_use]
    pub fn read<'a>(&'a mut self, mem: &'a [u8], size: usize) -> (out: &'a [u8])
        requires
            old(self).wf(mem@),
        ensures
            out@ == old(self).unread(mem@).take(old(self).at_hand(size as int)),
            *final(self) == (BufferSlice {
                read_index: (old(self).read_index + old(self).at_hand(size as int)) as usize,
                ..*old(self)
            }),
            final(self).wf(mem@),
            final(self).unread(mem@) == old(self).unread(mem@).skip(
                old(self).at_hand(size as int),
            ),
    {
        let ghost s0 = *self;
        let unread: usize = self.size();
        let n: usize = if size <= unread {
            size
        } else {
            unread
        };
        let at: usize = self.read_index;
        self.read_index = at + n;
        assert(mem@.len() == mem.len());
        assert(s0.unread(mem@).skip(n as int) =~= s0.bytes(mem@).subrange(
            at + n,
            s0.write_index as int,
        ));
        let out = match &self.data {
            SliceData::Shm(p) => vstd::slice::slice_subrange(mem, *p + at, *p + at + n),
            SliceData::Heap(v) => vstd::slice::slice_subrange(v.as_slice(), at, at + n),
        };
        assert(out@ =~= s0.unread(mem@).take(n as int));
        out
    }

    /// The `n` bytes from position `at` of the buffer on.
    pub fn range<'a>(&'a self, mem: &'a [u8], at: usize, n: usize) -> (out: &'a [u8])
        requires
            self.wf(mem@),
            at + n <= self.cap,
        ensures
            out@ == self.bytes(mem@).subrange(at as int, at + n),
    {
        assert(mem@.len() == mem.len());
        let out = match &self.data {
            SliceData::Shm(p) => vstd::slice::slice_subrange(mem, *p + at, *p + at + n),
            SliceData::Heap(v) => vstd::slice::slice_subrange(v.as_slice(), at, at + n),
        };
        assert(out@ =~= self.bytes(mem@).subrange(at as int, at + n));
        out
    }

    /// The next `size` bytes, or as many as there are, without taking them out.
    pub fn peek<'a>(&'a self, mem: &'a [u8], size: usize) -> (out: &'a [u8])
        requires
            self.wf(mem@),
        ensures
            out@ == self.unread(mem@).take(self.at_hand(size as int)),
    {
        let unread: usize = self.size();
        let n: usize = if size <= unread {
            size
        } else {
            unread
        };
        let at: usize = self.read_index;
        assert(mem@.len() == mem.len());
        let out = match &self.data {
            SliceData::Shm(p) => vstd::slice::slice_subrange(mem, *p + at, *p + at + n),
            SliceData::Heap(v) => vstd::slice::slice_subrange(v.as_slice(), at, at + n),
        };
        assert(out@ =~= self.unread(mem@).take(n as int));
        out
    }

    /// Drops the next `size` bytes, or as many as there are; tells how many.
    pub fn skip(&mut self, size: usize) -> (n: usize)
        requires
            old(self).read_index <= old(self).write_index,
        ensures
            n == old(self).at_hand(size as int),
            *final(self) == (BufferSlice {
                read_index: (old(self).read_index + n) as usize,
                ..*old(self)
            }),
    {
        let un_read: usize = self.size();
        if un_read > size {
            self.read_index = self.read_index + size;
            return size;
        }
        self.read_index = self.read_index + un_read;
        un_read
    }
}

/// Slices in order, one of which may take the next write.
#[derive(Debug)]
pub struct SliceList {
    slices: Vec<BufferSlice>,
    write: Option<usize>,
}

impl View for SliceList {
    type V = Seq<BufferSlice>;

    closed spec fn view(&self) -> Seq<BufferSlice> {
        self.slices@
    }
}

impl Default for SliceList {
    fn default() -> (r: Self)
        ensures
            r@ == Seq::<BufferSlice>::empty(),
            r.write_pos() is None,
            r.wf(),
    {
        SliceList { slices: Vec::new(), write: None }
    }
}

impl SliceList {
    /// The position of the slice that takes the next write.
    pub closed spec fn write_pos(self) -> Option<int> {
        match self.write {
            Some(w) => Some(w as int),
            None => None,
        }
    }

    /// The write position is one of the list.
    pub open spec fn wf(self) -> bool {
        self.write_pos() matches Some(w) ==> 0 <= w < self@.len()
    }

    pub fn new() -> (r: Self)
        ensures
            r@ == Seq::<BufferSlice>::empty(),
            r.write_pos() is None,
            r.wf(),
    {
        Self::default()
    }

    pub fn front(&self) -> (r: Option<&BufferSlice>)
        ensures
            r == if self@.len() > 0 {
                Some(&self@[0])
            } else {
                None
            },
    {
        if self.slices.len() > 0 {
            Some(&self.slices[0])
        } else {
            None
        }
    }

    pub fn front_mut(&mut self) -> (r: Option<&mut BufferSlice>)
        ensures
            r is Some <==> old(self)@.len() > 0,
            final(self).write_pos() == old(self).write_pos(),
            match r {
                Some(s) => *s == old(self)@[0] && final(self)@ == old(self)@.update(0, *final(s)),
                None => final(self)@ == old(self)@,
            },
    {
        if self.slices.len() > 0 {
            Some(&mut self.slices[0])
        } else {
            None
        }
    }

    pub fn back(&self) -> (r: Option<&BufferSlice>)
        ensures
            r == if self@.len() > 0 {
                Some(&self@.last())
            } else {
                None
            },
    {
        let n: usize = self.slices.len();
        if n > 0 {
            Some(&self.slices[n - 1])
        } else {
            None
        }
    }

    pub fn back_mut(&mut self) -> (r: Option<&mut BufferSlice>)
        ensures
            r is Some <==> old(self)@.len() > 0,
            final(self).write_pos() == old(self).write_pos(),
            match r {
                Some(s) => *s == old(self)@.last() && final(self)@ == old(self)@.update(
                    old(self)@.len() - 1,
                    *final(s),
                ),
                None => final(self)@ == old(self)@,
            },
    {
        let n: usize = self.slices.len();
        if n > 0 {
            Some(&mut self.slices[n - 1])
        } else {
            None
        }
    }

    /// The slice that takes the next write.
    pub fn write(&self) -> (r: Option<&BufferSlice>)
        requires
            self.wf(),
        ensures
            r == match self.write_pos() {
                Some(w) => Some(&self@[w]),
                None => None,
            },
    {
        match self.write {
            Some(w) => Some(&self.slices[w]),
            None => None,
        }
    }

    pub fn write_mut(&mut self) -> (r: Option<&mut BufferSlice>)
        requires
            old(self).wf(),
        ensures
            r is Some <==> old(self).write_pos() is Some,
            final(self).write_pos() == old(self).write_pos(),
            match r {
                Some(s) => *s == old(self)@[old(self).write_pos()->0] && final(self)@ == old(
                    self,
                )@.update(old(self).write_pos()->0, *final(s)),
                None => final(self)@ == old(self)@,
            },
    {
        match self.write {
            Some(w) => Some(&mut self.slices[w]),
            None => None,
        }
    }

    /// The position of the slice that takes the next write.
    pub fn write_slice(&self) -> (r: Option<usize>)
        ensures
            match r {
                Some(w) => self.write_pos() == Some(w as int),
                None => self.write_pos() is None,
            },
    {
        self.write
    }

    /// Chooses the slice that takes the next write.
    pub fn set_write_slice(&mut self, write: Option<usize>)
        requires
            write matches Some(w) ==> w < old(self)@.len(),
        ensures
            final(self)@ == old(self)@,
            final(self).write_pos() == match write {
                Some(w) => Some(w as int),
                None => None,
            },
    {
        self.write = write;
    }

    /// The slice at position `i`.
    pub fn get(&self, i: usize) -> (r: &BufferSlice)
        requires
            i < self@.len(),
        ensures
            *r == self@[i as int],
    {
        &self.slices[i]
    }

    /// The slice at position `i`, for writing.
    pub fn get_mut(&mut self, i: usize) -> (r: &mut BufferSlice)
        requires
            i < old(self)@.len(),
        ensures
            *r == old(self)@[i as int],
            final(self)@ == old(self)@.update(i as int, *final(r)),
            final(self).write_pos() == old(self).write_pos(),
    {
        &mut self.slices[i]
    }

    /// How many slices there are.
    pub fn size(&self) -> (r: usize)
        ensures
            r == self@.len(),
    {
        self.slices.len()
    }

    pub fn push_back(&mut self, s: BufferSlice)
        ensures
            final(self)@ == old(self)@.push(s),
            final(self).write_pos() == old(self).write_pos(),
    {
        self.slices.push(s);
    }

    /// Takes out the first slice. If it was the one to take the next write, there is none now.
    pub fn pop_front(&mut self) -> (r: Option<BufferSlice>)
        ensures
            r == if old(self)@.len() > 0 {
                Some(old(self)@[0])
            } else {
                None
            },
            old(self)@.len() == 0 ==> *final(self) == *old(self),
            old(self)@.len() > 0 ==> {
                &&& final(self)@ == old(self)@.skip(1)
                &&& final(self).write_pos() == match old(self).write_pos() {
                    Some(w) if w > 0 => Some(w - 1),
                    _ => None,
                }
            },
    {
        if self.slices.len() == 0 {
            return None;
        }
        self.write = match self.write {
            Some(w) if w > 0 => Some(w - 1),
            _ => None,
        };
        let ghost s0 = self.slices@;
        let s = self.slices.remove(0);
        assert(self.slices@ =~= s0.skip(1));
        Some(s)
    }

    /// Cuts the list behind the slice that takes the next write; the slices behind it come out
    /// as a list of their own, if there are any.
    pub fn split_from_write(&mut self) -> (r: Option<SliceList>)
        requires
            old(self).wf(),
        ensures
            final(self).write_pos() == old(self).write_pos(),
            match old(self).write_pos() {
                Some(w) => {
                    &&& final(self)@ == old(self)@.take(w + 1)
                    &&& r is Some <==> w + 1 < old(self)@.len()
                    &&& r matches Some(l) ==> l@ == old(self)@.skip(w + 1) && l.write_pos() is None
                },
                None => r is None && final(self)@ == old(self)@,
            },
    {
        let ghost s0 = self.slices@;
        let n: usize = self.slices.len();
        match self.write {
            Some(w) => {
                assert(w < n);
                let tail = self.slices.split_off(w + 1);
                assert(self.slices@ =~= s0.take(w + 1));
                assert(tail@ =~= s0.skip(w + 1));
                if tail.len() > 0 {
                    Some(SliceList { slices: tail, write: None })
                } else {
                    None
                }
            },
            None => None,
        }
    }
}

} // verus!
