//! What readers and writers of shared memory have in common.

use vstd::prelude::*;

use crate::buffer::buf::Buf;
use crate::buffer::linked::LinkedBuffer;
use crate::buffer::manager::BufferManager;
use crate::buffer::placement;
use crate::buffer::taking;
use crate::error::Error;

verus! {

/// Something that is read out of shared memory.
pub trait BufferReader: Sized {
    /// The reader is in order.
    spec fn is_ready(&self, bm: BufferManager, m: Seq<u8>) -> bool;

    /// One more pin can be counted.
    spec fn has_pin(&self) -> bool;

    /// There is something to discard from, be it empty.
    spec fn has_slices(&self) -> bool;

    /// What is there to read.
    spec fn unread(&self, m: Seq<u8>) -> Seq<u8>;

    /// `size` bytes were taken out at the front on the way from `self` in `a` to `next` in `b`. A pin
    /// goes by the name and the number that `pin` gives.
    spec fn took(
        &self,
        bm: BufferManager,
        a: Seq<u8>,
        next: Self,
        b: Seq<u8>,
        size: int,
        pin: Option<(int, int)>,
    ) -> bool;

    /// All that there was, and nothing of it to be read, was given up on the way from `self` in `a`
    /// to `next` in `b`.
    spec fn ran_dry(&self, bm: BufferManager, a: Seq<u8>, next: Self, b: Seq<u8>) -> bool;

    /// `next` is `self` after a look at the next bytes, which handed out `b`.
    spec fn looked(&self, bm: BufferManager, m: Seq<u8>, next: Self, b: Buf) -> bool;

    /// What was read to the end was given up on the way from `self` in `a` to `next` in `b`: it
    /// went back to the region, or it waits for its pins.
    spec fn released(&self, bm: BufferManager, a: Seq<u8>, next: Self, b: Seq<u8>) -> bool;

    /// Reads the next run of bytes that lie together.
    fn read_chunk<'a>(&'a mut self, bm: &BufferManager, mem: &'a mut [u8]) -> (r: Result<
        Buf<'a>,
        Error,
    >)
        requires
            old(self).is_ready(*bm, old(mem)@),
            old(self).unread(old(mem)@).len() > 0 ==> old(self).has_pin(),
        ensures
            final(self).is_ready(*bm, final(mem)@),
            match r {
                Err(e) => {
                    &&& e == Error::NotEnoughData
                    &&& old(self).unread(old(mem)@).len() == 0
                    &&& final(self).unread(final(mem)@).len() == 0
                    &&& old(self).ran_dry(*bm, old(mem)@, *final(self), final(mem)@)
                },
                Ok(b) => {
                    &&& b.content().len() > 0
                    &&& old(self).unread(old(mem)@) == b.content() + final(self).unread(
                        final(mem)@,
                    )
                    &&& old(self).took(
                        *bm,
                        old(mem)@,
                        *final(self),
                        final(mem)@,
                        b.content().len() as int,
                        taking::pin_of(b),
                    )
                },
            },
    ;

    /// Reads exactly `size` bytes, or nothing where there are fewer.
    fn read_exact_bytes<'a>(
        &'a mut self,
        bm: &BufferManager,
        mem: &'a mut [u8],
        size: usize,
    ) -> (r: Result<Buf<'a>, Error>)
        requires
            old(self).is_ready(*bm, old(mem)@),
            0 < size <= old(self).unread(old(mem)@).len() ==> old(self).has_pin() && size
                <= isize::MAX,
        ensures
            final(self).is_ready(*bm, final(mem)@),
            match r {
                Err(e) => {
                    &&& e == Error::NotEnoughData
                    &&& old(self).unread(old(mem)@).len() < size
                    &&& *final(self) == *old(self)
                    &&& final(mem)@ == old(mem)@
                },
                Ok(b) => {
                    &&& b.content().len() == size
                    &&& old(self).unread(old(mem)@) == b.content() + final(self).unread(
                        final(mem)@,
                    )
                    &&& old(self).took(
                        *bm,
                        old(mem)@,
                        *final(self),
                        final(mem)@,
                        b.content().len() as int,
                        taking::pin_of(b),
                    )
                },
            },
    ;

    /// Looks at exactly `size` bytes, which stay unread.
    fn peek<'a>(&'a mut self, bm: &BufferManager, mem: &'a [u8], size: usize) -> (r: Result<
        Buf<'a>,
        Error,
    >)
        requires
            old(self).is_ready(*bm, mem@),
            0 < size <= old(self).unread(mem@).len() ==> old(self).has_pin() && size <= isize::MAX,
        ensures
            final(self).is_ready(*bm, mem@),
            final(self).unread(mem@) == old(self).unread(mem@),
            match r {
                Err(e) => {
                    &&& e == Error::NotEnoughData
                    &&& old(self).unread(mem@).len() < size
                    &&& *final(self) == *old(self)
                },
                Ok(b) => {
                    &&& b.content().len() == size
                    &&& b.content() == old(self).unread(mem@).take(size as int)
                    &&& old(self).looked(*bm, mem@, *final(self), b)
                },
            },
    ;

    /// Drops exactly `size` bytes, or nothing where there are fewer.
    fn discard(&mut self, bm: &BufferManager, mem: &mut [u8], size: usize) -> (r: Result<
        usize,
        Error,
    >)
        requires
            old(self).is_ready(*bm, old(mem)@),
            size > 0 || old(self).has_slices(),
        ensures
            final(self).is_ready(*bm, final(mem)@),
            match r {
                Err(e) => {
                    &&& e == Error::NotEnoughData
                    &&& old(self).unread(old(mem)@).len() < size
                    &&& *final(self) == *old(self)
                    &&& final(mem)@ == old(mem)@
                },
                Ok(n) => {
                    &&& n == size
                    &&& size <= old(self).unread(old(mem)@).len()
                    &&& final(self).unread(final(mem)@) == old(self).unread(old(mem)@).skip(
                        size as int,
                    )
                    &&& old(self).took(
                        *bm,
                        old(mem)@,
                        *final(self),
                        final(mem)@,
                        size as int,
                        None,
                    )
                },
            },
    ;

    /// Gives up what was read to the end. What is pinned goes back with its last pin.
    fn release_previous_read(&mut self, bm: &BufferManager, mem: &mut [u8])
        requires
            old(self).is_ready(*bm, old(mem)@),
        ensures
            final(self).is_ready(*bm, final(mem)@),
            final(mem)@.len() == old(mem)@.len(),
            final(self).unread(final(mem)@) == old(self).unread(old(mem)@),
            old(self).released(*bm, old(mem)@, *final(self), final(mem)@),
    ;
}

/// Something that is written to shared memory.
pub trait BufferWriter: Sized {
    /// The writer is in order and can count so many bytes more.
    spec fn has_room(&self, bm: BufferManager, m: Seq<u8>, size: int) -> bool;

    /// There is a slice for the next write, or one can be had for nothing.
    spec fn can_begin(&self, bm: BufferManager, m: Seq<u8>) -> bool;

    /// What was written.
    spec fn written(&self, m: Seq<u8>) -> Seq<u8>;

    /// Room for `size` bytes was set aside on the way from `self` in `a` to `next` in `b`.
    spec fn set_aside(
        &self,
        bm: BufferManager,
        a: Seq<u8>,
        next: Self,
        b: Seq<u8>,
        size: int,
    ) -> bool;

    /// `size` bytes were written on the way from `self` in `a` to `next` in `b`.
    spec fn wrote(&self, bm: BufferManager, a: Seq<u8>, next: Self, b: Seq<u8>, size: int) -> bool;

    /// Hands out the next `size` bytes to be written. What is put there is written.
    fn reserve<'a>(&'a mut self, bm: &BufferManager, mem: &'a mut [u8], size: usize) -> (r: Result<
        &'a mut [u8],
        Error,
    >)
        requires
            old(self).has_room(*bm, old(mem)@, if size <= u32::MAX { size as int } else { 0 }),
            size > 0 || old(self).can_begin(*bm, old(mem)@),
        ensures
            r is Ok <==> size <= u32::MAX,
            match r {
                Ok(out) => {
                    &&& out@.len() == size
                    &&& final(out)@.len() == size ==> {
                        &&& final(self).has_room(*bm, final(mem)@, 0)
                        &&& final(self).written(final(mem)@) == old(self).written(old(mem)@)
                            + final(out)@
                        &&& old(self).set_aside(
                            *bm,
                            old(mem)@,
                            *final(self),
                            final(mem)@,
                            size as int,
                        )
                    }
                },
                Err(e) => {
                    &&& e == Error::NoMoreBuffer
                    &&& *final(self) == *old(self)
                    &&& final(mem)@ == old(mem)@
                },
            },
    ;

    /// Writes all of `bytes`.
    fn write_bytes(&mut self, bm: &BufferManager, mem: &mut [u8], bytes: &[u8]) -> (r: Result<
        usize,
        Error,
    >)
        requires
            old(self).has_room(*bm, old(mem)@, bytes@.len() as int),
        ensures
            r == Ok::<usize, Error>(bytes@.len() as usize),
            final(self).has_room(*bm, final(mem)@, 0),
            final(self).written(final(mem)@) == old(self).written(old(mem)@) + bytes@,
            old(self).wrote(*bm, old(mem)@, *final(self), final(mem)@, bytes@.len() as int),
    ;
}

impl BufferReader for LinkedBuffer {
    open spec fn is_ready(&self, bm: BufferManager, m: Seq<u8>) -> bool {
        self.wf(bm, m)
    }

    open spec fn has_pin(&self) -> bool {
        self.can_pin()
    }

    open spec fn has_slices(&self) -> bool {
        self.slices().len() > 0
    }

    open spec fn unread(&self, m: Seq<u8>) -> Seq<u8> {
        self.content(m)
    }

    open spec fn took(
        &self,
        bm: BufferManager,
        a: Seq<u8>,
        next: Self,
        b: Seq<u8>,
        size: int,
        pin: Option<(int, int)>,
    ) -> bool {
        &&& self.evolves(bm, a, next, b)
        &&& self.gave_out(bm, a, next, b, size, pin)
    }

    open spec fn ran_dry(&self, bm: BufferManager, a: Seq<u8>, next: Self, b: Seq<u8>) -> bool {
        &&& self.evolves(bm, a, next, b)
        &&& self.took_out(bm, a, next, b, self.slices().len() as int, 0, None)
    }

    open spec fn looked(&self, bm: BufferManager, m: Seq<u8>, next: Self, b: Buf) -> bool {
        &&& self.evolves(bm, m, next, m)
        &&& self.gave_out(bm, m, next, m, 0, self.peek_pin(next, b))
    }

    open spec fn released(&self, bm: BufferManager, a: Seq<u8>, next: Self, b: Seq<u8>) -> bool {
        &&& self.evolves(bm, a, next, b)
        &&& self.released_read(bm, a, next, b)
    }

    fn read_chunk<'a>(&'a mut self, bm: &BufferManager, mem: &'a mut [u8]) -> (r: Result<
        Buf<'a>,
        Error,
    >) {
        proof {
            self.lemma_chunk_spent(*bm, mem@);
        }
        LinkedBuffer::read_chunk(self, bm, mem)
    }

    fn read_exact_bytes<'a>(
        &'a mut self,
        bm: &BufferManager,
        mem: &'a mut [u8],
        size: usize,
    ) -> (r: Result<Buf<'a>, Error>) {
        let ghost c = self.content(mem@);
        assert(forall|n: int| 0 <= n <= c.len() ==> #[trigger] c.take(n) + c.skip(n) =~= c);
        LinkedBuffer::read_exact_bytes(self, bm, mem, size)
    }

    fn peek<'a>(&'a mut self, bm: &BufferManager, mem: &'a [u8], size: usize) -> (r: Result<
        Buf<'a>,
        Error,
    >) {
        LinkedBuffer::peek(self, bm, mem, size)
    }

    fn discard(&mut self, bm: &BufferManager, mem: &mut [u8], size: usize) -> (r: Result<
        usize,
        Error,
    >) {
        LinkedBuffer::discard(self, bm, mem, size)
    }

    fn release_previous_read(&mut self, bm: &BufferManager, mem: &mut [u8]) {
        LinkedBuffer::release_previous_read(self, bm, mem)
    }
}

impl BufferWriter for LinkedBuffer {
    open spec fn has_room(&self, bm: BufferManager, m: Seq<u8>, size: int) -> bool {
        &&& self.wf(bm, m)
        &&& self.spec_len() + size <= usize::MAX
    }

    open spec fn can_begin(&self, bm: BufferManager, m: Seq<u8>) -> bool {
        LinkedBuffer::can_begin(*self, bm, m)
    }

    open spec fn written(&self, m: Seq<u8>) -> Seq<u8> {
        self.content(m)
    }

    open spec fn set_aside(
        &self,
        bm: BufferManager,
        a: Seq<u8>,
        next: Self,
        b: Seq<u8>,
        size: int,
    ) -> bool {
        &&& self.evolves(bm, a, next, b)
        &&& placement::reserved(bm, bm.frees(a), *self, bm.frees(b), next, size)
        &&& next.pins() == self.pins()
        &&& self.sendable(a) ==> next.sendable(b)
        &&& bm.in_balance(a) ==> bm.in_balance(b)
    }

    open spec fn wrote(
        &self,
        bm: BufferManager,
        a: Seq<u8>,
        next: Self,
        b: Seq<u8>,
        size: int,
    ) -> bool {
        &&& self.evolves(bm, a, next, b)
        &&& if size == 0 {
            next == *self && b == a
        } else {
            placement::placed(bm, bm.frees(a), *self, bm.frees(b), next, size)
        }
        &&& next.grew_from(b, *self, a)
        &&& next.pins() == self.pins()
        &&& self.sendable(a) ==> next.sendable(b)
        &&& bm.in_balance(a) ==> bm.in_balance(b)
    }

    fn reserve<'a>(&'a mut self, bm: &BufferManager, mem: &'a mut [u8], size: usize) -> (r: Result<
        &'a mut [u8],
        Error,
    >) {
        LinkedBuffer::reserve(self, bm, mem, size)
    }

    fn write_bytes(&mut self, bm: &BufferManager, mem: &mut [u8], bytes: &[u8]) -> (r: Result<
        usize,
        Error,
    >) {
        LinkedBuffer::write_bytes(self, bm, mem, bytes)
    }
}

} // verus!
