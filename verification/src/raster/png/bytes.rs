//! Big- and little-endian byte packing shared by the PNG reader and writer.

use vstd::prelude::*;

verus! {

/// The four bytes of `v`, most significant first.
pub open spec fn be32(v: u32) -> Seq<u8> {
    seq![(v / 0x0100_0000) as u8, ((v / 0x1_0000) % 256) as u8, ((v / 256) % 256) as u8, (v % 256) as u8]
}

/// The two bytes of `v`, least significant first.
pub open spec fn le16(v: u16) -> Seq<u8> {
    seq![(v % 256) as u8, (v / 256) as u8]
}

/// The big-endian number held in four bytes.
pub open spec fn read_be32(b: Seq<u8>) -> u32 {
    (b[0] * 0x0100_0000 + b[1] * 0x1_0000 + b[2] * 256 + b[3]) as u32
}

/// Reading back the bytes of a number gives the number.
pub proof fn lemma_be32_round_trip(v: u32)
    ensures
        read_be32(be32(v)) == v,
        be32(v).len() == 4,
{
    let b = be32(v);
    assert(b[0] * 0x0100_0000 + b[1] * 0x1_0000 + b[2] * 256 + b[3] == v) by (nonlinear_arith)
        requires b[0] == (v / 0x0100_0000) as u8, b[1] == ((v / 0x1_0000) % 256) as u8, b[2] == ((v / 256) % 256) as u8, b[3] == (v % 256) as u8;
}

/// Append the big-endian bytes of `v`.
pub fn push_be32(out: &mut Vec<u8>, v: u32)
    ensures
        final(out)@ == old(out)@ + be32(v),
{
    let b0 = (v >> 24) as u8;
    let b1 = ((v >> 16) & 0xff) as u8;
    let b2 = ((v >> 8) & 0xff) as u8;
    let b3 = (v & 0xff) as u8;
    assert(b0 == (v / 0x0100_0000) as u8 && b1 == ((v / 0x1_0000) % 256) as u8 && b2 == ((v / 256) % 256) as u8 && b3 == (v % 256) as u8) by (bit_vector)
        requires b0 == (v >> 24) as u8, b1 == ((v >> 16) & 0xff) as u8, b2 == ((v >> 8) & 0xff) as u8, b3 == (v & 0xff) as u8;
    out.push(b0);
    out.push(b1);
    out.push(b2);
    out.push(b3);
    assert(final_seq_eq(out@, old(out)@, be32(v)));
}

/// Append the little-endian bytes of `v`.
pub fn push_le16(out: &mut Vec<u8>, v: u16)
    ensures
        final(out)@ == old(out)@ + le16(v),
{
    let b0 = (v & 0xff) as u8;
    let b1 = (v >> 8) as u8;
    assert(b0 == (v % 256) as u8 && b1 == (v / 256) as u8) by (bit_vector)
        requires b0 == (v & 0xff) as u8, b1 == (v >> 8) as u8;
    out.push(b0);
    out.push(b1);
    assert(out@ =~= old(out)@ + le16(v));
}

/// Whether `whole` is `front` followed by `back`.
pub open spec fn final_seq_eq(whole: Seq<u8>, front: Seq<u8>, back: Seq<u8>) -> bool {
    whole =~= front + back
}

/// Read the big-endian number in four bytes.
pub fn be32_at(data: &[u8], at: usize) -> (result: u32)
    requires
        at + 4 <= data@.len(),
    ensures
        result == read_be32(data@.subrange(at as int, at + 4)),
{
    let b0 = data[at] as u32;
    let b1 = data[at + 1] as u32;
    let b2 = data[at + 2] as u32;
    let b3 = data[at + 3] as u32;
    let r = (b0 << 24) | (b1 << 16) | (b2 << 8) | b3;
    assert(r == (b0 * 0x0100_0000 + b1 * 0x1_0000 + b2 * 256 + b3) as u32) by (bit_vector)
        requires b0 < 256, b1 < 256, b2 < 256, b3 < 256, r == (b0 << 24) | (b1 << 16) | (b2 << 8) | b3;
    r
}

/// Append every byte of `data`.
pub fn push_all(out: &mut Vec<u8>, data: &[u8])
    ensures
        final(out)@ == old(out)@ + data@,
{
    let mut i: usize = 0;
    while i < data.len()
        invariant
            i <= data@.len(),
            out@ == old(out)@ + data@.take(i as int),
        decreases data@.len() - i,
    {
        out.push(data[i]);
        assert(data@.take(i + 1) == data@.take(i as int).push(data@[i as int]));
        i += 1;
    }
    assert(data@.take(data@.len() as int) == data@);
}

} // verus!
