//! Little-endian words inside a byte region.
//!
//! A shared region is a plain byte slice. Every store is one [`put_bytes`]; the lemmas of
//! [`group_mem`] let the prover read a word back through a pile of stores.

use vstd::prelude::*;

verus! {

/// `m` with `d` written over it from position `o` on.
#[verifier::opaque]
pub open spec fn put_bytes(m: Seq<u8>, o: int, d: Seq<u8>) -> Seq<u8> {
    Seq::new(
        m.len(),
        |i: int|
            if o <= i < o + d.len() {
                d[i - o]
            } else {
                m[i]
            },
    )
}

/// The two bytes of `v`, least significant first.
pub open spec fn le16(v: u16) -> Seq<u8> {
    seq![(v % 256) as u8, (v / 256) as u8]
}

/// The four bytes of `v`, least significant first.
#[verifier::opaque]
pub open spec fn le32(v: u32) -> Seq<u8> {
    seq![
        (v % 256) as u8,
        (v / 256 % 256) as u8,
        (v / 65536 % 256) as u8,
        (v / 16777216) as u8,
    ]
}

/// The eight bytes of `v`, least significant first.
#[verifier::opaque]
pub open spec fn le64(v: u64) -> Seq<u8> {
    le32((v % 0x1_0000_0000) as u32) + le32((v / 0x1_0000_0000) as u32)
}

/// The word of two bytes at `o`.
pub open spec fn u16_at(m: Seq<u8>, o: int) -> u16 {
    (m[o] + 256 * m[o + 1]) as u16
}

/// The word of four bytes at `o`.
#[verifier::opaque]
pub open spec fn u32_at(m: Seq<u8>, o: int) -> u32 {
    (m[o] + 256 * m[o + 1] + 65536 * m[o + 2] + 16777216 * m[o + 3]) as u32
}

/// The word of eight bytes at `o`.
#[verifier::opaque]
pub open spec fn u64_at(m: Seq<u8>, o: int) -> u64 {
    (u32_at(m, o) + 0x1_0000_0000 * u32_at(m, o + 4)) as u64
}

/// `a` and `b` hold the same bytes from `lo` up to `hi`.
pub open spec fn same_range(a: Seq<u8>, b: Seq<u8>, lo: int, hi: int) -> bool {
    forall|i: int|
        #![trigger a[i]]
        #![trigger b[i]]
        lo <= i < hi ==> a[i] == b[i]
}

pub broadcast proof fn lemma_put_bytes_len(m: Seq<u8>, o: int, d: Seq<u8>)
    ensures
        #[trigger] put_bytes(m, o, d).len() == m.len(),
{
    reveal(put_bytes);
}

pub broadcast proof fn lemma_put_bytes_index(m: Seq<u8>, o: int, d: Seq<u8>, i: int)
    requires
        0 <= i < m.len(),
    ensures
        #[trigger] put_bytes(m, o, d)[i] == if o <= i < o + d.len() {
            d[i - o]
        } else {
            m[i]
        },
{
    reveal(put_bytes);
}

pub broadcast proof fn lemma_put_bytes_subrange(m: Seq<u8>, o: int, d: Seq<u8>, lo: int, hi: int)
    requires
        0 <= lo <= hi <= m.len(),
        hi <= o || o + d.len() <= lo,
    ensures
        #[trigger] put_bytes(m, o, d).subrange(lo, hi) == m.subrange(lo, hi),
{
    broadcast use lemma_put_bytes_len, lemma_put_bytes_index;

    assert(put_bytes(m, o, d).subrange(lo, hi) =~= m.subrange(lo, hi));
}

pub broadcast proof fn lemma_u32_at_put(m: Seq<u8>, o: int, d: Seq<u8>, p: int)
    requires
        0 <= p,
        p + 4 <= m.len(),
        p + 4 <= o || o + d.len() <= p,
    ensures
        #[trigger] u32_at(put_bytes(m, o, d), p) == u32_at(m, p),
{
    broadcast use lemma_put_bytes_index;

    reveal(u32_at);
}

pub broadcast proof fn lemma_u64_at_put(m: Seq<u8>, o: int, d: Seq<u8>, p: int)
    requires
        0 <= p,
        p + 8 <= m.len(),
        p + 8 <= o || o + d.len() <= p,
    ensures
        #[trigger] u64_at(put_bytes(m, o, d), p) == u64_at(m, p),
{
    broadcast use lemma_u32_at_put;

    reveal(u64_at);
}

pub broadcast proof fn lemma_u32_at_put_le32(m: Seq<u8>, o: int, v: u32)
    requires
        0 <= o,
        o + 4 <= m.len(),
    ensures
        #[trigger] u32_at(put_bytes(m, o, le32(v)), o) == v,
{
    broadcast use lemma_put_bytes_index;

    reveal(u32_at);
    reveal(le32);
}

pub broadcast proof fn lemma_le32_len(v: u32)
    ensures
        #[trigger] le32(v).len() == 4,
{
    reveal(le32);
}

pub broadcast proof fn lemma_le64_len(v: u64)
    ensures
        #[trigger] le64(v).len() == 8,
{
    reveal(le64);
    reveal(le32);
}

/// Storing eight bytes is storing the low word and then the high word.
proof fn lemma_put_le64_split(m: Seq<u8>, o: int, v: u64)
    requires
        0 <= o,
        o + 8 <= m.len(),
    ensures
        put_bytes(m, o, le64(v)) == put_bytes(
            put_bytes(m, o, le32((v % 0x1_0000_0000) as u32)),
            o + 4,
            le32((v / 0x1_0000_0000) as u32),
        ),
{
    broadcast use {
        lemma_put_bytes_len, lemma_put_bytes_index, lemma_le32_len, lemma_le64_len,
    };

    reveal(le64);
    assert(put_bytes(m, o, le64(v)) =~= put_bytes(
        put_bytes(m, o, le32((v % 0x1_0000_0000) as u32)),
        o + 4,
        le32((v / 0x1_0000_0000) as u32),
    ));
}

pub broadcast proof fn lemma_u64_at_put_le64(m: Seq<u8>, o: int, v: u64)
    requires
        0 <= o,
        o + 8 <= m.len(),
    ensures
        #[trigger] u64_at(put_bytes(m, o, le64(v)), o) == v,
{
    broadcast use {
        lemma_put_bytes_len, lemma_u32_at_put, lemma_u32_at_put_le32, lemma_le32_len,
    };

    lemma_put_le64_split(m, o, v);
    reveal(u64_at);
}

pub broadcast group group_mem {
    lemma_put_bytes_len,
    lemma_put_bytes_index,
    lemma_put_bytes_subrange,
    lemma_u32_at_put,
    lemma_u64_at_put,
    lemma_u32_at_put_le32,
    lemma_u64_at_put_le64,
    lemma_le32_len,
    lemma_le64_len,
}

/// Regions that agree on the four bytes of a word agree on the word.
pub proof fn lemma_u32_at_same(a: Seq<u8>, b: Seq<u8>, o: int)
    requires
        same_range(a, b, o, o + 4),
    ensures
        u32_at(a, o) == u32_at(b, o),
{
    reveal(u32_at);
    assert(a[o] == b[o] && a[o + 1] == b[o + 1] && a[o + 2] == b[o + 2] && a[o + 3] == b[o + 3]);
}

/// Regions that agree on the eight bytes of a word agree on the word.
pub proof fn lemma_u64_at_same(a: Seq<u8>, b: Seq<u8>, o: int)
    requires
        same_range(a, b, o, o + 8),
    ensures
        u64_at(a, o) == u64_at(b, o),
{
    reveal(u64_at);
    lemma_u32_at_same(a, b, o);
    lemma_u32_at_same(a, b, o + 4);
}

/// Reads the word of two bytes at `o`.
pub fn get_u16(mem: &[u8], o: usize) -> (v: u16)
    requires
        o + 2 <= mem@.len(),
    ensures
        v == u16_at(mem@, o as int),
{
    mem[o] as u16 + 256 * (mem[o + 1] as u16)
}

/// Reads the word of four bytes at `o`.
pub fn get_u32(mem: &[u8], o: usize) -> (v: u32)
    requires
        o + 4 <= mem@.len(),
    ensures
        v == u32_at(mem@, o as int),
{
    reveal(u32_at);
    mem[o] as u32 + 256 * (mem[o + 1] as u32) + 65536 * (mem[o + 2] as u32) + 16777216 * (mem[o
        + 3] as u32)
}

/// Reads the word of eight bytes at `o`.
pub fn get_u64(mem: &[u8], o: usize) -> (v: u64)
    requires
        o + 8 <= mem@.len(),
    ensures
        v == u64_at(mem@, o as int),
{
    reveal(u64_at);
    assert(mem@.len() == mem.len());
    let low: u32 = get_u32(mem, o);
    let high: u32 = get_u32(mem, o + 4);
    low as u64 + 0x1_0000_0000 * (high as u64)
}

/// Copies `data` into the region from position `o` on.
pub fn set_bytes(mem: &mut [u8], o: usize, data: &[u8])
    requires
        o + data@.len() <= old(mem)@.len(),
    ensures
        final(mem)@ == put_bytes(old(mem)@, o as int, data@),
{
    broadcast use group_mem;

    let n: usize = data.len();
    let len: usize = mem.len();
    let mut k: usize = 0;
    while k < n
        invariant
            k <= n,
            len == mem@.len(),
            n == data@.len(),
            o + n <= mem@.len(),
            mem@.len() == old(mem)@.len(),
            forall|i: int|
                0 <= i < mem@.len() ==> #[trigger] mem@[i] == if o <= i < o + k {
                    data@[i - o]
                } else {
                    old(mem)@[i]
                },
        decreases n - k,
    {
        mem[o + k] = data[k];
        k += 1;
    }
    proof {
        assert(mem@ =~= put_bytes(old(mem)@, o as int, data@));
    }
}

/// The `size` bytes from position `o` on, for writing.
pub fn window(mem: &mut [u8], o: usize, size: usize) -> (out: &mut [u8])
    requires
        o + size <= old(mem)@.len(),
    ensures
        out@ == old(mem)@.subrange(o as int, o + size),
        final(out)@.len() == size ==> final(mem)@ == put_bytes(old(mem)@, o as int, final(out)@),
{
    broadcast use group_mem;

    let ghost m0 = mem@;
    let (head, tail) = mem.split_at_mut(o);
    let (out, rest) = tail.split_at_mut(size);
    assert(out@ =~= m0.subrange(o as int, o + size));
    assert(final(out)@.len() == size ==> head@ + (final(out)@ + rest@) =~= put_bytes(
        m0,
        o as int,
        final(out)@,
    ));
    out
}

/// Overwrites the whole region with zero bytes.
pub fn fill_zero(mem: &mut [u8])
    ensures
        final(mem)@ == Seq::new(old(mem)@.len(), |i: int| 0u8),
{
    let n: usize = mem.len();
    let mut k: usize = 0;
    while k < n
        invariant
            k <= n,
            n == mem@.len(),
            mem@.len() == old(mem)@.len(),
            forall|i: int| 0 <= i < k ==> #[trigger] mem@[i] == 0,
        decreases n - k,
    {
        mem[k] = 0;
        k += 1;
    }
    proof {
        assert(mem@ =~= Seq::new(old(mem)@.len(), |i: int| 0u8));
    }
}

/// Stores one byte at `o`.
pub fn set_u8(mem: &mut [u8], o: usize, v: u8)
    requires
        o < old(mem)@.len(),
    ensures
        final(mem)@ == put_bytes(old(mem)@, o as int, seq![v]),
{
    broadcast use group_mem;

    mem[o] = v;
    proof {
        assert(mem@ =~= put_bytes(old(mem)@, o as int, seq![v]));
    }
}

/// Stores the word `v` of two bytes at `o`.
pub fn set_u16(mem: &mut [u8], o: usize, v: u16)
    requires
        o + 2 <= old(mem)@.len(),
    ensures
        final(mem)@ == put_bytes(old(mem)@, o as int, le16(v)),
{
    let bytes: [u8; 2] = [(v % 256) as u8, (v / 256) as u8];
    assert(bytes@ =~= le16(v));
    set_bytes(mem, o, bytes.as_slice());
}

/// Stores the word `v` of four bytes at `o`.
pub fn set_u32(mem: &mut [u8], o: usize, v: u32)
    requires
        o + 4 <= old(mem)@.len(),
    ensures
        final(mem)@ == put_bytes(old(mem)@, o as int, le32(v)),
{
    reveal(le32);
    let bytes: [u8; 4] = [
        (v % 256) as u8,
        (v / 256 % 256) as u8,
        (v / 65536 % 256) as u8,
        (v / 16777216) as u8,
    ];
    assert(bytes@ =~= le32(v));
    set_bytes(mem, o, bytes.as_slice());
}

/// Stores the word `v` of eight bytes at `o`.
pub fn set_u64(mem: &mut [u8], o: usize, v: u64)
    requires
        o + 8 <= old(mem)@.len(),
    ensures
        final(mem)@ == put_bytes(old(mem)@, o as int, le64(v)),
{
    broadcast use group_mem;

    assert(mem@.len() == mem.len());
    set_u32(mem, o, (v % 0x1_0000_0000) as u32);
    set_u32(mem, o + 4, (v / 0x1_0000_0000) as u32);
    proof {
        lemma_put_le64_split(old(mem)@, o as int, v);
    }
}

} // verus!
