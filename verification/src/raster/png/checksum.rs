//! The two checksums PNG uses: CRC-32 over each chunk, Adler-32 over the
//! zlib stream.

use vstd::prelude::*;

verus! {

/// One bit-serial step of the reflected CRC-32 polynomial `0xEDB88320`.
pub open spec fn crc_shift(c: u32) -> u32 {
    if c & 1 != 0 { 0xedb8_8320 ^ (c >> 1) } else { c >> 1 }
}

/// `n` steps of the CRC register.
pub open spec fn crc_shift_n(c: u32, n: nat) -> u32
    decreases n,
{
    if n == 0 { c } else { crc_shift_n(crc_shift(c), (n - 1) as nat) }
}

/// The CRC register after every byte has been shifted in, starting from all
/// ones.
pub open spec fn crc_register(bytes: Seq<u8>) -> u32
    decreases bytes.len(),
{
    if bytes.len() == 0 {
        0xffff_ffff
    } else {
        crc_shift_n(crc_register(bytes.drop_last()) ^ (bytes.last() as u32), 8)
    }
}

/// CRC-32 (ISO-HDLC, as PNG uses it): the complemented final register.
pub open spec fn crc32_spec(bytes: Seq<u8>) -> u32 {
    !crc_register(bytes)
}

/// The Adler-32 running sum of bytes, starting at one, modulo 65521.
pub open spec fn adler_a(bytes: Seq<u8>) -> int
    decreases bytes.len(),
{
    if bytes.len() == 0 { 1 } else { (adler_a(bytes.drop_last()) + bytes.last()) % 65521 }
}

/// The Adler-32 running sum of the running sums, modulo 65521.
pub open spec fn adler_b(bytes: Seq<u8>) -> int
    decreases bytes.len(),
{
    if bytes.len() == 0 { 0 } else { (adler_b(bytes.drop_last()) + adler_a(bytes)) % 65521 }
}

/// Adler-32 (RFC 1950): the second sum above the first.
pub open spec fn adler32_spec(bytes: Seq<u8>) -> u32 {
    (adler_b(bytes) * 65536 + adler_a(bytes)) as u32
}

/// CRC-32 of `bytes`.
pub fn crc32(bytes: &[u8]) -> (result: u32)
    ensures
        result == crc32_spec(bytes@),
{
    let mut crc: u32 = 0xffff_ffff;
    let mut i: usize = 0;
    while i < bytes.len()
        invariant
            i <= bytes@.len(),
            crc == crc_register(bytes@.take(i as int)),
        decreases bytes@.len() - i,
    {
        let ghost prefix = bytes@.take(i + 1);
        assert(prefix.drop_last() == bytes@.take(i as int));
        crc = crc ^ (bytes[i] as u32);
        let mut k: u32 = 0;
        let ghost start = crc;
        while k < 8
            invariant
                k <= 8,
                crc_shift_n(start, 8) == crc_shift_n(crc, (8 - k) as nat),
            decreases 8 - k,
        {
            crc = if crc & 1 != 0 { 0xedb8_8320 ^ (crc >> 1) } else { crc >> 1 };
            k += 1;
        }
        i += 1;
    }
    assert(bytes@.take(bytes@.len() as int) == bytes@);
    !crc
}

/// Adler-32 of `bytes`.
pub fn adler32(bytes: &[u8]) -> (result: u32)
    ensures
        result == adler32_spec(bytes@),
        0 <= adler_a(bytes@) < 65521,
        0 <= adler_b(bytes@) < 65521,
{
    let mut a: u32 = 1;
    let mut b: u32 = 0;
    let mut i: usize = 0;
    while i < bytes.len()
        invariant
            i <= bytes@.len(),
            a == adler_a(bytes@.take(i as int)),
            b == adler_b(bytes@.take(i as int)),
            a < 65521,
            b < 65521,
        decreases bytes@.len() - i,
    {
        let ghost prefix = bytes@.take(i + 1);
        assert(prefix.drop_last() == bytes@.take(i as int));
        a = (a + bytes[i] as u32) % 65521;
        b = (b + a) % 65521;
        i += 1;
    }
    assert(bytes@.take(bytes@.len() as int) == bytes@);
    assert((b << 16) | a == (b * 65536 + a) as u32) by (bit_vector)
        requires a < 65521, b < 65521;
    (b << 16) | a
}

} // verus!
