//! What a read hands out: bytes in place, or bytes that were gathered.

use bytes::Bytes;
use vstd::prelude::*;

use crate::buffer::linked::PinLease;
use crate::outside;

verus! {

/// Bytes in place, with the lease that keeps their buffer from being reused.
#[derive(Debug)]
pub struct ShmBuf<'shm> {
    buf: &'shm [u8],
    lease: PinLease,
}

impl<'shm> ShmBuf<'shm> {
    pub closed spec fn content(self) -> Seq<u8> {
        self.buf@
    }

    pub closed spec fn lease(self) -> PinLease {
        self.lease
    }

    pub(crate) fn new(buf: &'shm [u8], lease: PinLease) -> (r: Self)
        ensures
            r.content() == buf@,
            r.lease() == lease,
    {
        ShmBuf { buf, lease }
    }

    /// The bytes.
    pub fn as_slice(&self) -> (r: &[u8])
        ensures
            r@ == self.content(),
    {
        self.buf
    }
}

/// What a read hands out.
#[derive(Debug)]
pub enum Buf<'shm> {
    /// Bytes in place.
    Shm(ShmBuf<'shm>),
    /// Bytes that were gathered from several buffers.
    Exm(Bytes),
}

impl<'shm> Buf<'shm> {
    pub open spec fn content(self) -> Seq<u8> {
        match self {
            Buf::Shm(s) => s.content(),
            Buf::Exm(b) => outside::bytes_content(b),
        }
    }

    pub fn len(&self) -> (r: usize)
        ensures
            r == self.content().len(),
    {
        match self {
            Buf::Shm(s) => s.as_slice().len(),
            Buf::Exm(b) => outside::bytes_len(b),
        }
    }

    pub fn is_empty(&self) -> (r: bool)
        ensures
            r == (self.content().len() == 0),
    {
        self.len() == 0
    }

    /// The bytes.
    pub fn as_slice(&self) -> (r: &[u8])
        ensures
            r@ == self.content(),
    {
        match self {
            Buf::Shm(s) => s.as_slice(),
            Buf::Exm(b) => outside::bytes_as_slice(b),
        }
    }

    /// The bytes on their own, and the lease that is now to be released, if there is one.
    pub fn into_bytes(self) -> (r: (Bytes, Option<PinLease>))
        ensures
            outside::bytes_content(r.0) == self.content(),
            r.1 == match self {
                Buf::Shm(s) => Some(s.lease()),
                Buf::Exm(_) => None,
            },
    {
        match self {
            Buf::Shm(s) => (outside::bytes_copy_from_slice(s.buf), Some(s.lease)),
            Buf::Exm(b) => (b, None),
        }
    }

    /// How many bytes are left.
    pub fn remaining(&self) -> (r: usize)
        ensures
            r == self.content().len(),
    {
        self.len()
    }

    /// The bytes that are left.
    pub fn chunk(&self) -> (r: &[u8])
        ensures
            r@ == self.content(),
    {
        self.as_slice()
    }

    /// Drops the first `cnt` bytes.
    pub fn advance(&mut self, cnt: usize)
        requires
            cnt <= old(self).content().len(),
        ensures
            final(self).content() == old(self).content().skip(cnt as int),
            match *old(self) {
                Buf::Shm(s) => *final(self) matches Buf::Shm(t) && t.lease() == s.lease(),
                Buf::Exm(_) => *final(self) is Exm,
            },
    {
        match self {
            Buf::Shm(s) => {
                let n: usize = s.buf.len();
                s.buf = vstd::slice::slice_subrange(s.buf, cnt, n);
            },
            Buf::Exm(b) => {
                outside::bytes_advance(b, cnt);
            },
        }
    }
}

/// Whether two runs of bytes are the same.
pub fn bytes_eq(a: &[u8], b: &[u8]) -> (r: bool)
    ensures
        r == (a@ == b@),
{
    if a.len() != b.len() {
        return false;
    }
    let n: usize = a.len();
    let mut i: usize = 0;
    while i < n
        invariant
            n == a@.len(),
            n == b@.len(),
            0 <= i <= n,
            forall|k: int| 0 <= k < i ==> a@[k] == b@[k],
        decreases n - i,
    {
        if a[i] != b[i] {
            return false;
        }
        i += 1;
    }
    assert(a@ =~= b@);
    true
}

/// `a` comes before `b` in the order of dictionaries.
pub open spec fn bytes_before(a: Seq<u8>, b: Seq<u8>) -> bool {
    exists|k: int|
        0 <= k <= a.len() && k < b.len() && #[trigger] a.take(k) == b.take(k) && (k == a.len()
            || a[k] < b[k])
}

/// How two runs of bytes are ordered.
#[derive(Clone, Copy, Debug, PartialEq, Eq, Structural)]
pub enum BytesOrder {
    Before,
    Same,
    After,
}

/// The order of two runs of bytes, as in dictionaries.
pub fn bytes_order(a: &[u8], b: &[u8]) -> (r: BytesOrder)
    ensures
        match r {
            BytesOrder::Before => bytes_before(a@, b@),
            BytesOrder::Same => a@ == b@,
            BytesOrder::After => bytes_before(b@, a@),
        },
{
    let n: usize = a.len();
    let m: usize = b.len();
    let mut i: usize = 0;
    while i < n && i < m
        invariant
            n == a@.len(),
            m == b@.len(),
            0 <= i <= n,
            0 <= i <= m,
            forall|k: int| 0 <= k < i ==> a@[k] == b@[k],
        decreases n - i,
    {
        if a[i] != b[i] {
            assert(a@.take(i as int) =~= b@.take(i as int));
            return if a[i] < b[i] {
                BytesOrder::Before
            } else {
                BytesOrder::After
            };
        }
        i += 1;
    }
    assert(a@.take(i as int) =~= b@.take(i as int));
    if n < m {
        BytesOrder::Before
    } else if m < n {
        BytesOrder::After
    } else {
        assert(a@ =~= b@);
        BytesOrder::Same
    }
}

/// No two runs of bytes come both before and after one another, and none comes before itself.
pub proof fn law_bytes_order_is_strict(a: Seq<u8>, b: Seq<u8>)
    ensures
        !(bytes_before(a, b) && bytes_before(b, a)),
        !bytes_before(a, a),
{
    if bytes_before(a, b) && bytes_before(b, a) {
        let i = choose|k: int|
            0 <= k <= a.len() && k < b.len() && #[trigger] a.take(k) == b.take(k) && (k == a.len()
                || a[k] < b[k]);
        let j = choose|k: int|
            0 <= k <= b.len() && k < a.len() && #[trigger] b.take(k) == a.take(k) && (k == b.len()
                || b[k] < a[k]);
        if i < j {
            assert(b.take(j)[i] == a.take(j)[i]);
        } else if j < i {
            assert(a.take(i)[j] == b.take(i)[j]);
        }
    }
}

/// What was handed out reads as the bytes that it is made of: as many as there are, in one piece,
/// and dropping some at the front leaves the others.
pub proof fn law_bytes_are_read_in_order(
    a: &mut Buf,
    n: usize,
    before: (usize, bool),
    seen: &[u8],
    after: usize,
    left: &[u8],
)
    requires
        n <= old(a).content().len(),
        call_ensures(Buf::remaining, (&*old(a),), before.0),
        call_ensures(Buf::is_empty, (&*old(a),), before.1),
        call_ensures(Buf::chunk, (&*old(a),), seen),
        call_ensures(Buf::advance, (a, n), ()),
        call_ensures(Buf::remaining, (&*final(a),), after),
        call_ensures(Buf::chunk, (&*final(a),), left),
    ensures
        before.0 == seen@.len(),
        before.1 <==> seen@.len() == 0,
        after == before.0 - n,
        left@ =~= seen@.skip(n as int),
{
}

/// Two runs of bytes are the same exactly where neither comes before the other, and whichever is
/// looked at first, the answer is the same.
pub proof fn law_order_tells_bytes_apart(
    a: &[u8],
    b: &[u8],
    same: bool,
    x: BytesOrder,
    y: BytesOrder,
)
    requires
        call_ensures(bytes_eq, (a, b), same),
        call_ensures(bytes_order, (a, b), x),
        call_ensures(bytes_order, (b, a), y),
    ensures
        same <==> a@ =~= b@,
        same <==> x == BytesOrder::Same,
        x == BytesOrder::Before <==> y == BytesOrder::After,
        x == BytesOrder::After <==> y == BytesOrder::Before,
        a@.len() < b@.len() && a@ =~= b@.take(a@.len() as int) ==> x == BytesOrder::Before,
        a@.len() > 0 && b@.len() > 0 && a@[0] < b@[0] ==> x == BytesOrder::Before,
{
    law_bytes_order_is_strict(a@, b@);
    law_bytes_order_is_strict(b@, a@);
    law_bytes_order_is_strict(a@, a@);
    if a@.len() < b@.len() && a@ =~= b@.take(a@.len() as int) {
        assert(a@.take(a@.len() as int) =~= b@.take(a@.len() as int));
        assert(bytes_before(a@, b@));
    }
    if a@.len() > 0 && b@.len() > 0 && a@[0] < b@[0] {
        assert(a@.take(0) =~= b@.take(0));
        assert(bytes_before(a@, b@));
    }
}

/// Bytes that are taken on their own are the same bytes. Those that were in place come with the pin
/// that is to be given back; those that were gathered need none.
pub proof fn law_bytes_are_taken_whole(b: Buf, r: (Bytes, Option<PinLease>), seen: &[u8], n: usize)
    requires
        call_ensures(Buf::as_slice, (&b,), seen),
        call_ensures(Buf::len, (&b,), n),
        call_ensures(Buf::into_bytes, (b,), r),
    ensures
        outside::bytes_content(r.0) == seen@,
        n == seen@.len(),
        r.1 is Some <==> b is Shm,
        b matches Buf::Shm(s) ==> r.1 == Some(s.lease()),
{
}

} // verus!
