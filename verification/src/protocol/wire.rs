//! Numbers on the connection: most significant byte first.

use vstd::prelude::*;

verus! {

/// The two bytes of `v`.
pub open spec fn be16(v: u16) -> Seq<u8> {
    seq![(v / 256) as u8, (v % 256) as u8]
}

/// The four bytes of `v`.
pub open spec fn be32(v: u32) -> Seq<u8> {
    seq![
        (v / 0x100_0000) as u8,
        (v / 0x1_0000 % 256) as u8,
        (v / 256 % 256) as u8,
        (v % 256) as u8,
    ]
}

/// The number that the two bytes at `o` stand for.
pub open spec fn be16_at(s: Seq<u8>, o: int) -> u16 {
    (256 * s[o] + s[o + 1]) as u16
}

/// The number that the four bytes at `o` stand for.
pub open spec fn be32_at(s: Seq<u8>, o: int) -> u32 {
    (0x100_0000 * s[o] + 0x1_0000 * s[o + 1] + 256 * s[o + 2] + s[o + 3]) as u32
}

/// Reads the number of two bytes at `o`.
pub fn get_be16(s: &[u8], o: usize) -> (r: u16)
    requires
        o + 2 <= s@.len(),
    ensures
        r == be16_at(s@, o as int),
{
    256 * (s[o] as u16) + s[o + 1] as u16
}

/// Reads the number of four bytes at `o`.
pub fn get_be32(s: &[u8], o: usize) -> (r: u32)
    requires
        o + 4 <= s@.len(),
    ensures
        r == be32_at(s@, o as int),
{
    0x100_0000 * (s[o] as u32) + 0x1_0000 * (s[o + 1] as u32) + 256 * (s[o + 2] as u32) + s[o
        + 3] as u32
}

/// Appends the two bytes of `v`.
pub fn push_be16(out: &mut Vec<u8>, v: u16)
    ensures
        final(out)@ == old(out)@ + be16(v),
{
    out.push((v / 256) as u8);
    out.push((v % 256) as u8);
    assert(out@ =~= old(out)@ + be16(v));
}

/// Appends the four bytes of `v`.
pub fn push_be32(out: &mut Vec<u8>, v: u32)
    ensures
        final(out)@ == old(out)@ + be32(v),
{
    out.push((v / 0x100_0000) as u8);
    out.push((v / 0x1_0000 % 256) as u8);
    out.push((v / 256 % 256) as u8);
    out.push((v % 256) as u8);
    assert(out@ =~= old(out)@ + be32(v));
}

/// Appends the bytes of `s`.
pub fn push_all(out: &mut Vec<u8>, s: &[u8])
    ensures
        final(out)@ == old(out)@ + s@,
{
    out.extend_from_slice(s);
    assert(out@ =~= old(out)@ + s@);
}

/// A number is read as it was written.
pub proof fn law_numbers_read_back(a: Seq<u8>, v: u16, w: u32, b: Seq<u8>)
    ensures
        be16_at(a + be16(v) + b, a.len() as int) == v,
        be32_at(a + be32(w) + b, a.len() as int) == w,
{
    let s = a + be16(v) + b;
    let n = a.len() as int;
    assert(s[n] == be16(v)[0] && s[n + 1] == be16(v)[1]);
    let t = a + be32(w) + b;
    assert(t[n] == be32(w)[0] && t[n + 1] == be32(w)[1]);
    assert(t[n + 2] == be32(w)[2] && t[n + 3] == be32(w)[3]);
}

} // verus!
