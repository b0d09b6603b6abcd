//! Reading what a stream handed out, piece by piece.

use tokio::io::ReadBuf;
use vstd::prelude::*;

use crate::buffer::buf::Buf;
use crate::outside;

verus! {

/// Hands the bytes of a [`Buf`] on, as many at a time as there is room for.
pub struct BufReader<'shm> {
    buf: Buf<'shm>,
    consumed: usize,
}

impl<'shm> BufReader<'shm> {
    /// The bytes in all.
    pub closed spec fn content(self) -> Seq<u8> {
        self.buf.content()
    }

    /// How many bytes were handed on.
    pub closed spec fn spec_consumed(&self) -> usize {
        self.consumed
    }

    pub open spec fn wf(self) -> bool {
        self.consumed() <= self.content().len()
    }

    pub fn new(buf: Buf<'shm>) -> (r: Self)
        ensures
            r.wf(),
            r.content() == buf.content(),
            r.consumed() == 0,
    {
        BufReader { buf, consumed: 0 }
    }

    /// How many bytes were handed on.
    #[verifier::when_used_as_spec(spec_consumed)]
    pub fn consumed(&self) -> (r: usize)
        ensures
            r == self.consumed(),
    {
        self.consumed
    }

    /// Hands on as many bytes as there is room for; tells whether that were all.
    pub fn read(&mut self, buf: &mut ReadBuf<'_>) -> (r: bool)
        requires
            old(self).wf(),
        ensures
            final(self).wf(),
            final(self).content() == old(self).content(),
            outside::read_buf_capacity(*final(buf)) == outside::read_buf_capacity(*old(buf)),
            ({
                let rest = old(self).content().skip(old(self).consumed() as int);
                let room = outside::read_buf_capacity(*old(buf)) - outside::read_buf_filled(
                    *old(buf),
                ).len();
                let n = if rest.len() <= room {
                    rest.len() as int
                } else {
                    room
                };
                &&& r == (rest.len() <= room)
                &&& final(self).consumed() == old(self).consumed() + n
                &&& outside::read_buf_filled(*final(buf)) == outside::read_buf_filled(*old(buf))
                    + rest.take(n)
            }),
    {
        let ghost rest = self.content().skip(self.consumed as int);
        let len: usize = self.buf.len();
        let room: usize = outside::read_buf_remaining(buf);
        if self.consumed >= len {
            assert(rest.take(0) =~= Seq::<u8>::empty());
            assert(outside::read_buf_filled(*buf) + rest.take(0) =~= outside::read_buf_filled(
                *buf,
            ));
            return true;
        }
        let inner: &[u8] = vstd::slice::slice_subrange(self.buf.as_slice(), self.consumed, len);
        assert(inner@ =~= rest);
        if inner.len() <= room {
            let n: usize = inner.len();
            outside::read_buf_put_slice(buf, inner);
            assert(rest.take(n as int) =~= rest);
            self.consumed = self.consumed + n;
            return true;
        }
        outside::read_buf_put_slice(buf, vstd::slice::slice_subrange(inner, 0, room));
        assert(inner@.subrange(0, room as int) =~= rest.take(room as int));
        self.consumed = self.consumed + room;
        false
    }
}

/// What is read piece by piece is what there was, in its order and nothing twice; a read says that
/// it is at the end exactly where all of it was handed on.
pub proof fn law_pieces_make_the_whole(
    a: &mut BufReader,
    x: &mut ReadBuf,
    b: &mut BufReader,
    y: &mut ReadBuf,
    first: bool,
    second: bool,
)
    requires
        old(a).consumed() == 0,
        outside::read_buf_filled(*old(x)).len() <= outside::read_buf_capacity(*old(x)),
        outside::read_buf_filled(*old(y)).len() <= outside::read_buf_capacity(*old(y)),
        call_ensures(BufReader::read, (a, x), first),
        *old(b) == *final(a),
        call_ensures(BufReader::read, (b, y), second),
    ensures
        ({
            let c = old(a).content();
            let p = outside::read_buf_filled(*final(x)).skip(
                outside::read_buf_filled(*old(x)).len() as int,
            );
            let q = outside::read_buf_filled(*final(y)).skip(
                outside::read_buf_filled(*old(y)).len() as int,
            );
            &&& p + q =~= c.take((p.len() + q.len()) as int)
            &&& first <==> p.len() == c.len()
            &&& second <==> p.len() + q.len() == c.len()
            &&& !first ==> p.len() == outside::read_buf_capacity(*old(x))
                - outside::read_buf_filled(*old(x)).len()
            &&& !second ==> q.len() == outside::read_buf_capacity(*old(y))
                - outside::read_buf_filled(*old(y)).len()
        }),
{
    let c = old(a).content();
    let f = outside::read_buf_filled(*old(x));
    let g = outside::read_buf_filled(*old(y));
    let p = outside::read_buf_filled(*final(x)).skip(f.len() as int);
    let q = outside::read_buf_filled(*final(y)).skip(g.len() as int);
    let n = final(a).consumed() as int;
    assert(c.skip(0) =~= c);
    assert(p =~= c.take(n));
    let k = final(b).consumed() - n;
    assert(q =~= c.skip(n).take(k));
}

} // verus!
