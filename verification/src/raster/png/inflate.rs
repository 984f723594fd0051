//! DEFLATE (RFC 1951) inflate inside the zlib (RFC 1950) framing that PNG's
//! `IDAT` stream uses.
//!
//! The whole format is stated as spec functions over the input bytes and a
//! bit position: [`decode_symbol`] is the canonical Huffman walk,
//! [`block_result`] one compressed block, [`stream_result`] the block
//! sequence and [`zlib_result`] the framed stream. Each executable function
//! is proved to compute exactly what its spec function says, and every
//! failure is `None` rather than a panic.

use vstd::prelude::*;
use crate::raster::png::bytes::{be32_at, push_all, read_be32};
use crate::raster::png::checksum::{adler32, adler32_spec};

verus! {

/// Longest Huffman code DEFLATE allows.
pub const MAX_BITS: usize = 15;

/// `2^n` as a natural number.
pub open spec fn pow2(n: nat) -> nat
    decreases n,
{
    if n == 0 { 1 } else { 2 * pow2((n - 1) as nat) }
}

/// Bit `i` of the stream: bits are numbered from the least significant bit
/// of the first byte upward.
pub open spec fn bit_at(data: Seq<u8>, i: int) -> int {
    ((data[i / 8] >> ((i % 8) as u8)) & 1u8) as int
}

/// The `n` bits starting at bit `start`, read as a number least significant
/// bit first (how DEFLATE packs its ordinary fields).
pub open spec fn bits_le(data: Seq<u8>, start: int, n: nat) -> nat
    decreases n,
{
    if n == 0 {
        0
    } else {
        bits_le(data, start, (n - 1) as nat) + (bit_at(data, start + n - 1) * pow2((n - 1) as nat)) as nat
    }
}

/// The `n` bits starting at bit `start`, read as a Huffman code: the first
/// bit is the most significant.
pub open spec fn code_msb(data: Seq<u8>, start: int, n: nat) -> int
    decreases n,
{
    if n == 0 { 0 } else { 2 * code_msb(data, start, (n - 1) as nat) + bit_at(data, start + n - 1) }
}

/// Number of bits in `data`.
pub open spec fn total_bits(data: Seq<u8>) -> int {
    (data.len() * 8) as int
}

proof fn lemma_pow2_pos(n: nat)
    ensures
        1 <= pow2(n),
    decreases n,
{
    if n > 0 {
        lemma_pow2_pos((n - 1) as nat);
    }
}

proof fn lemma_pow2_mono(a: nat, b: nat)
    requires
        a <= b,
    ensures
        1 <= pow2(a) <= pow2(b),
    decreases b,
{
    if b > a {
        lemma_pow2_mono(a, (b - 1) as nat);
    } else {
        lemma_pow2_pos(a);
    }
}

proof fn lemma_pow2_bound(n: nat)
    ensures
        1 <= pow2(n),
        n <= 32 ==> pow2(n) <= 0x1_0000_0000,
        n < 32 ==> pow2(n) <= 0x8000_0000,
        n <= 16 ==> pow2(n) <= 0x1_0000,
{
    reveal_with_fuel(pow2, 33);
    lemma_pow2_mono(0, n);
    if n <= 16 {
        lemma_pow2_mono(n, 16);
    }
    if n < 32 {
        lemma_pow2_mono(n, 31);
    }
    if n <= 32 {
        lemma_pow2_mono(n, 32);
    }
}

proof fn lemma_bit_at(data: Seq<u8>, i: int)
    ensures
        bit_at(data, i) == 0 || bit_at(data, i) == 1,
{
    let b = data[i / 8];
    let s = (i % 8) as u8;
    assert((b >> s) & 1u8 <= 1) by (bit_vector);
}

proof fn lemma_bits_le_bound(data: Seq<u8>, start: int, n: nat)
    ensures
        bits_le(data, start, n) < pow2(n),
    decreases n,
{
    if n > 0 {
        lemma_bits_le_bound(data, start, (n - 1) as nat);
        lemma_bit_at(data, start + n - 1);
    }
}

proof fn lemma_code_bound(data: Seq<u8>, start: int, n: nat)
    ensures
        0 <= code_msb(data, start, n) < pow2(n),
    decreases n,
{
    if n > 0 {
        lemma_code_bound(data, start, (n - 1) as nat);
        lemma_bit_at(data, start + n - 1);
    }
}

/// A reader over a byte slice that hands out bits in stream order.
pub struct BitReader<'a> {
    data: &'a [u8],
    pos: usize,
    bit: u8,
}

impl<'a> BitReader<'a> {
    /// The bytes being read.
    pub closed spec fn stream(&self) -> Seq<u8> {
        self.data@
    }

    /// How many bits have been consumed.
    pub closed spec fn at(&self) -> int {
        self.pos * 8 + self.bit
    }

    /// The position lies within the stream.
    pub closed spec fn wf(&self) -> bool {
        &&& self.bit < 8
        &&& self.pos <= self.data@.len()
        &&& self.pos * 8 + self.bit <= self.data@.len() * 8
    }

    /// A reader at the first bit of `data`.
    pub fn new(data: &'a [u8]) -> (result: BitReader<'a>)
        ensures
            result.wf(),
            result.stream() == data@,
            result.at() == 0,
    {
        BitReader { data, pos: 0, bit: 0 }
    }

    /// Whether at least `n` more bits remain.
    fn has_bits(&self, n: u32) -> (result: bool)
        requires
            self.wf(),
            n <= 32,
        ensures
            result == (self.at() + n <= total_bits(self.stream())),
    {
        let left = self.data.len() - self.pos;
        if left >= 5 {
            true
        } else {
            left * 8 - (self.bit as usize) >= n as usize
        }
    }

    /// The next `n` bits, least significant first; `None`, and nothing
    /// consumed, when fewer than `n` remain.
    pub fn bits(&mut self, n: u32) -> (result: Option<u32>)
        requires
            old(self).wf(),
            n <= 32,
        ensures
            final(self).wf(),
            final(self).stream() == old(self).stream(),
            result is Some <==> old(self).at() + n <= total_bits(old(self).stream()),
            result matches Some(v) ==> v == bits_le(old(self).stream(), old(self).at(), n as nat)
                && final(self).at() == old(self).at() + n,
            result is None ==> final(self).at() == old(self).at(),
    {
        if !self.has_bits(n) {
            return None;
        }
        let ghost start = self.at();
        let ghost data = self.data@;
        let mut value: u64 = 0;
        let mut weight: u64 = 1;
        let mut i: u32 = 0;
        while i < n
            invariant
                self.wf(),
                self.data@ == data,
                n <= 32,
                i <= n,
                start + n <= total_bits(data),
                self.at() == start + i,
                value == bits_le(data, start, i as nat),
                weight == pow2(i as nat),
            decreases n - i,
        {
            proof {
                lemma_bits_le_bound(data, start, i as nat);
                lemma_pow2_bound(i as nat);
                assert((self.pos * 8 + self.bit) / 8 == self.pos && (self.pos * 8 + self.bit) % 8 == self.bit)
                    by (nonlinear_arith) requires self.bit < 8;
            }
            let byte = self.data[self.pos];
            let shift = self.bit;
            let b: u8 = (byte >> shift) & 1u8;
            assert(b <= 1) by (bit_vector) requires b == (byte >> shift) & 1u8;
            assert(bit_at(data, start + i) == b as int);
            if b == 1 {
                let ghost bv = bit_at(data, start + i);
                let ghost pw = pow2(i as nat);
                assert(bv * pw == pw) by (nonlinear_arith) requires bv == 1;
                assert(bits_le(data, start, (i + 1) as nat) == value + weight);
                value = value + weight;
            } else {
                let ghost bv = bit_at(data, start + i);
                let ghost pw = pow2(i as nat);
                assert(bv * pw == 0) by (nonlinear_arith) requires bv == 0;
                assert(bits_le(data, start, (i + 1) as nat) == value);
            }
            weight = weight * 2;
            if self.bit == 7 {
                self.pos = self.pos + 1;
                self.bit = 0;
            } else {
                self.bit = self.bit + 1;
            }
            i = i + 1;
        }
        proof {
            lemma_bits_le_bound(data, start, n as nat);
            lemma_pow2_bound(n as nat);
        }
        Some(value as u32)
    }

    /// Skip to the next byte boundary, as a stored block requires.
    pub fn align_byte(&mut self)
        requires
            old(self).wf(),
        ensures
            final(self).wf(),
            final(self).stream() == old(self).stream(),
            final(self).at() % 8 == 0,
            old(self).at() <= final(self).at() < old(self).at() + 8,
    {
        let len = self.data.len();
        if self.bit != 0 {
            assert(self.pos < self.data@.len()) by (nonlinear_arith)
                requires self.pos * 8 + self.bit <= self.data@.len() * 8, self.bit > 0;
            self.pos = self.pos + 1;
            self.bit = 0;
        }
    }

    /// The next `n` whole bytes, starting at the first byte boundary at or
    /// after the current position; `None` if the stream ends first.
    pub fn take_bytes(&mut self, n: usize) -> (result: Option<&'a [u8]>)
        requires
            old(self).wf(),
        ensures
            final(self).wf(),
            final(self).stream() == old(self).stream(),
            ({
                let start = (old(self).at() + 7) / 8;
                &&& result is Some <==> start + n <= old(self).stream().len()
                &&& result matches Some(s) ==> s@ == old(self).stream().subrange(start, start + n)
                    && final(self).at() == (start + n) * 8
            }),
    {
        let len = self.data.len();
        if self.bit > 0 {
            assert(self.pos < self.data@.len()) by (nonlinear_arith)
                requires self.pos * 8 + self.bit <= self.data@.len() * 8, self.bit > 0;
        }
        let start = if self.bit > 0 { self.pos + 1 } else { self.pos };
        assert(start == (self.pos * 8 + self.bit + 7) / 8) by (nonlinear_arith)
            requires self.bit < 8, start == if self.bit > 0 { self.pos + 1 } else { self.pos as int };
        if n > self.data.len() - start {
            return None;
        }
        let end = start + n;
        let slice = &self.data[start..end];
        self.pos = end;
        self.bit = 0;
        Some(slice)
    }
}

/// How many of the first `upto` symbols have code length `l`.
pub open spec fn count_len(lengths: Seq<u8>, l: int, upto: int) -> nat
    decreases upto,
{
    if upto <= 0 {
        0
    } else {
        count_len(lengths, l, upto - 1) + if lengths[upto - 1] == l { 1nat } else { 0nat }
    }
}

/// How many of the first `upto` symbols have a code length in `1..len`.
pub open spec fn count_shorter(lengths: Seq<u8>, len: int, upto: int) -> nat
    decreases upto,
{
    if upto <= 0 {
        0
    } else {
        count_shorter(lengths, len, upto - 1)
            + if 1 <= lengths[upto - 1] < len { 1nat } else { 0nat }
    }
}

/// Every code length is one DEFLATE allows.
pub open spec fn lengths_valid(lengths: Seq<u8>) -> bool {
    forall|i: int| 0 <= i < lengths.len() ==> #[trigger] lengths[i] <= MAX_BITS
}

/// Index, in length-then-symbol order, of the first code of length `len`.
pub open spec fn canon_index(counts: Seq<u16>, len: int) -> int
    decreases len,
{
    if len <= 1 { 0 } else { canon_index(counts, len - 1) + counts[len - 1] }
}

/// The numerically first code of length `len` in a canonical Huffman code.
pub open spec fn canon_first(counts: Seq<u16>, len: int) -> int
    decreases len,
{
    if len <= 1 { 0 } else { 2 * (canon_first(counts, len - 1) + counts[len - 1]) }
}

/// How many codes of each length `lengths` assigns (none of length zero).
pub open spec fn table_counts(lengths: Seq<u8>) -> Seq<u16> {
    Seq::new(16, |l: int| if l == 0 { 0u16 } else { count_len(lengths, l, lengths.len() as int) as u16 })
}

/// Where symbol `s` sits in length-then-symbol order.
pub open spec fn slot(lengths: Seq<u8>, s: int) -> int {
    canon_index(table_counts(lengths), lengths[s] as int) + count_len(lengths, lengths[s] as int, s)
}

/// Symbol `s` has a code and sits at position `k`.
pub open spec fn fills(lengths: Seq<u8>, s: int, k: int) -> bool {
    0 <= s < lengths.len() && lengths[s] != 0 && slot(lengths, s) == k
}

/// The symbols in length-then-symbol order; positions no symbol takes hold 0.
pub open spec fn table_symbols(lengths: Seq<u8>) -> Seq<u16> {
    Seq::new(
        lengths.len(),
        |k: int| if exists|s: int| fills(lengths, s, k) { (choose|s: int| fills(lengths, s, k)) as u16 } else { 0u16 },
    )
}

proof fn lemma_count_len_bound(lengths: Seq<u8>, l: int, u: int, v: int)
    requires
        0 <= u <= v <= lengths.len(),
    ensures
        count_len(lengths, l, u) <= count_len(lengths, l, v),
        count_len(lengths, l, v) - count_len(lengths, l, u) <= v - u,
    decreases v,
{
    if v > u {
        lemma_count_len_bound(lengths, l, u, v - 1);
    }
}

proof fn lemma_count_shorter_step(lengths: Seq<u8>, len: int, u: int)
    requires
        1 <= len,
        0 <= u <= lengths.len(),
    ensures
        count_shorter(lengths, len + 1, u) == count_shorter(lengths, len, u) + count_len(lengths, len, u),
        count_shorter(lengths, len, u) <= u,
        count_shorter(lengths, 1, u) == 0,
    decreases u,
{
    if u > 0 {
        lemma_count_shorter_step(lengths, len, u - 1);
    }
}

/// With valid lengths, the counts really are the per-length tallies and the
/// index of each length is the number of shorter codes.
proof fn lemma_counts(lengths: Seq<u8>, len: int)
    requires
        1 <= len <= 16,
        lengths.len() <= 0xffff,
    ensures
        canon_index(table_counts(lengths), len) == count_shorter(lengths, len, lengths.len() as int),
        forall|l: int| 0 < l < 16 ==> #[trigger] table_counts(lengths)[l] == count_len(lengths, l, lengths.len() as int),
    decreases len,
{
    let n = lengths.len() as int;
    assert forall|l: int| 0 < l < 16 implies #[trigger] table_counts(lengths)[l] == count_len(lengths, l, n) by {
        lemma_count_len_bound(lengths, l, 0, n);
    }
    if len == 1 {
        lemma_count_shorter_step(lengths, 1, n);
    } else {
        lemma_counts(lengths, len - 1);
        lemma_count_shorter_step(lengths, len - 1, n);
    }
}

proof fn lemma_canon_index_mono(counts: Seq<u16>, a: int, b: int)
    requires
        1 <= a <= b <= 16,
        counts.len() == 16,
    ensures
        canon_index(counts, a) <= canon_index(counts, b),
    decreases b,
{
    if b > a {
        lemma_canon_index_mono(counts, a, b - 1);
    }
}

/// Each symbol with a code sits inside the block of its length, and that
/// block ends before the total number of codes.
proof fn lemma_slot_range(lengths: Seq<u8>, s: int)
    requires
        lengths.len() <= 0xffff,
        lengths_valid(lengths),
        0 <= s < lengths.len(),
        lengths[s] != 0,
    ensures
        0 <= canon_index(table_counts(lengths), lengths[s] as int) <= slot(lengths, s),
        slot(lengths, s) < canon_index(table_counts(lengths), lengths[s] + 1),
        canon_index(table_counts(lengths), lengths[s] + 1) <= canon_index(table_counts(lengths), 16),
        canon_index(table_counts(lengths), 16) <= lengths.len(),
{
    let n = lengths.len() as int;
    let l = lengths[s] as int;
    lemma_counts(lengths, l + 1);
    lemma_counts(lengths, 16);
    lemma_count_len_bound(lengths, l, s + 1, n);
    lemma_count_shorter_step(lengths, 16, n);
    lemma_canon_index_mono(table_counts(lengths), l + 1, 16);
    lemma_canon_index_mono(table_counts(lengths), 1, l);
}

/// No two symbols share a position.
proof fn lemma_slots_distinct(lengths: Seq<u8>, t: int, s: int)
    requires
        lengths.len() <= 0xffff,
        lengths_valid(lengths),
        0 <= t < s < lengths.len(),
        lengths[s] != 0,
        lengths[t] != 0,
    ensures
        slot(lengths, t) != slot(lengths, s),
{
    lemma_slot_range(lengths, s);
    lemma_slot_range(lengths, t);
    let counts = table_counts(lengths);
    if lengths[t] == lengths[s] {
        lemma_count_len_bound(lengths, lengths[s] as int, t + 1, s);
    } else if lengths[t] < lengths[s] {
        lemma_canon_index_mono(counts, lengths[t] + 1, lengths[s] as int);
    } else {
        lemma_canon_index_mono(counts, lengths[s] + 1, lengths[t] as int);
    }
}

/// A canonical Huffman table: how many codes exist of each length, and the
/// symbols in length-then-symbol order.
pub struct Huffman {
    pub counts: [u16; 16],
    pub symbols: Vec<u16>,
}

impl Huffman {
    /// The table for a code length per symbol (0: the symbol has no code).
    /// `None` if a length exceeds 15. Lengths that break Kraft's inequality
    /// still build a table; decoding then simply fails to find a code.
    pub fn build(lengths: &[u8]) -> (result: Option<Huffman>)
        requires
            lengths@.len() <= 0xffff,
        ensures
            result is Some <==> lengths_valid(lengths@),
            result matches Some(h) ==> h.counts@ == table_counts(lengths@)
                && h.symbols@ == table_symbols(lengths@),
    {
        let n = lengths.len();
        let ghost ls = lengths@;
        let mut counts = [0u16; 16];
        let mut i: usize = 0;
        while i < n
            invariant
                n == ls.len(), ls == lengths@, n <= 0xffff,
                i <= n,
                counts@.len() == 16,
                forall|l: int| 0 <= l < 16 ==> #[trigger] counts@[l] == count_len(ls, l, i as int),
                forall|t: int| 0 <= t < i ==> #[trigger] ls[t] <= MAX_BITS,
            decreases n - i,
        {
            let len = lengths[i] as usize;
            if len > MAX_BITS {
                return None;
            }
            proof {
                lemma_count_len_bound(ls, len as int, 0, i as int);
            }
            counts[len] = counts[len] + 1;
            i = i + 1;
            proof {
                assert forall|l: int| 0 <= l < 16 implies #[trigger] counts@[l] == count_len(ls, l, i as int) by {
                }
            }
        }
        counts[0] = 0;
        proof {
            assert(counts@ =~= table_counts(ls)) by {
                assert forall|l: int| 0 <= l < 16 implies #[trigger] counts@[l] == table_counts(ls)[l] by {
                    lemma_count_len_bound(ls, l, 0, n as int);
                }
            }
            lemma_counts(ls, 16);
            lemma_count_shorter_step(ls, 16, n as int);
        }
        let mut offsets = [0u16; 17];
        let mut len: usize = 1;
        while len <= MAX_BITS
            invariant
                1 <= len <= 16,
                counts@ == table_counts(ls),
                n == ls.len(), n <= 0xffff,
                lengths_valid(ls),
                offsets@.len() == 17,
                canon_index(counts@, 16) <= n,
                forall|l: int| 1 <= l <= len ==> #[trigger] offsets@[l] == canon_index(counts@, l),
            decreases 16 - len,
        {
            proof {
                lemma_canon_index_mono(counts@, len as int + 1, 16);
            }
            offsets[len + 1] = offsets[len] + counts[len];
            len = len + 1;
        }
        let mut symbols: Vec<u16> = vec![0u16; n];
        let mut s: usize = 0;
        while s < n
            invariant
                n == ls.len(), ls == lengths@, n <= 0xffff,
                lengths_valid(ls),
                counts@ == table_counts(ls),
                s <= n,
                symbols@.len() == n,
                offsets@.len() == 17,
                forall|l: int| 1 <= l <= 15 ==> #[trigger] offsets@[l] == canon_index(counts@, l) + count_len(ls, l, s as int),
                forall|t: int| 0 <= t < s && ls[t] != 0 ==> #[trigger] symbols@[slot(ls, t)] == t,
                forall|k: int| 0 <= k < n && (forall|t: int| 0 <= t < s ==> !fills(ls, t, k)) ==> #[trigger] symbols@[k] == 0,
            decreases n - s,
        {
            let l = lengths[s] as usize;
            if l != 0 {
                proof {
                    lemma_slot_range(ls, s as int);
                }
                let at = offsets[l] as usize;
                assert(at == slot(ls, s as int));
                let ghost before = symbols@;
                symbols.set(at, s as u16);
                offsets[l] = offsets[l] + 1;
                proof {
                    assert forall|t: int| 0 <= t < s + 1 && ls[t] != 0 implies #[trigger] symbols@[slot(ls, t)] == t by {
                        if t < s {
                            lemma_slots_distinct(ls, t, s as int);
                            lemma_slot_range(ls, t);
                            assert(before[slot(ls, t)] == t);
                            assert(symbols@[slot(ls, t)] == before[slot(ls, t)]);
                        } else {
                            assert(t == s);
                            assert(symbols@[at as int] == s as u16);
                            assert((s as u16) as int == s as int);
                            assert(symbols@[slot(ls, t)] == t);
                        }
                    }
                    assert forall|k: int| 0 <= k < n && (forall|t: int| 0 <= t < s + 1 ==> !fills(ls, t, k))
                        implies #[trigger] symbols@[k] == 0 by {
                        assert(!fills(ls, s as int, k));
                        assert(forall|t: int| 0 <= t < s ==> !fills(ls, t, k));
                        assert(before[k] == 0);
                    }
                }
            } else {
                proof {
                    assert forall|k: int| 0 <= k < n && (forall|t: int| 0 <= t < s + 1 ==> !fills(ls, t, k))
                        implies #[trigger] symbols@[k] == 0 by {
                        assert(forall|t: int| 0 <= t < s ==> !fills(ls, t, k));
                    }
                }
            }
            s = s + 1;
        }
        proof {
            assert(symbols@ =~= table_symbols(ls)) by {
                assert forall|k: int| 0 <= k < n implies #[trigger] symbols@[k] == table_symbols(ls)[k] by {
                    if exists|t: int| fills(ls, t, k) {
                        let c = choose|t: int| fills(ls, t, k);
                        assert(symbols@[slot(ls, c)] == c);
                    }
                }
            }
        }
        Some(Huffman { counts, symbols })
    }
}

/// The canonical Huffman walk from code length `len` on: read one more bit,
/// and if the code read so far falls among the codes of this length, the
/// symbol it names (with the position after it); otherwise try one bit
/// longer. `None` when the stream ends first, no length up to 15 matches,
/// or the code points outside the symbol list.
pub open spec fn decode_from(counts: Seq<u16>, symbols: Seq<u16>, data: Seq<u8>, p: int, len: int) -> Option<(u16, int)>
    decreases 16 - len,
{
    if len < 1 || len > 15 || p + len > total_bits(data) {
        None
    } else {
        let code = code_msb(data, p, len as nat);
        let first = canon_first(counts, len);
        if code - first < counts[len] {
            let idx = canon_index(counts, len) + code - first;
            if 0 <= idx < symbols.len() { Some((symbols[idx], p + len)) } else { None }
        } else {
            decode_from(counts, symbols, data, p, len + 1)
        }
    }
}

/// The symbol the table decodes at bit `p`, and where its code ends.
pub open spec fn decode_symbol(counts: Seq<u16>, symbols: Seq<u16>, data: Seq<u8>, p: int) -> Option<(u16, int)> {
    decode_from(counts, symbols, data, p, 1)
}

pub proof fn lemma_decode_advances(counts: Seq<u16>, symbols: Seq<u16>, data: Seq<u8>, p: int, len: int)
    requires
        1 <= len,
    ensures
        decode_from(counts, symbols, data, p, len) matches Some((_, q)) ==> p < q <= total_bits(data),
    decreases 16 - len,
{
    if len <= 15 {
        lemma_decode_advances(counts, symbols, data, p, len + 1);
    }
}

proof fn lemma_first_bound(counts: Seq<u16>, len: int)
    requires
        1 <= len <= 16,
        counts.len() == 16,
    ensures
        0 <= canon_first(counts, len) <= (pow2(len as nat) - 2) * 0xffff,
        0 <= canon_index(counts, len) <= (len - 1) * 0xffff,
    decreases len,
{
    reveal_with_fuel(pow2, 2);
    if len > 1 {
        lemma_first_bound(counts, len - 1);
        lemma_pow2_pos((len - 1) as nat);
        let f = canon_first(counts, len - 1);
        let c = counts[len - 1] as int;
        let w = pow2((len - 1) as nat) as int;
        assert(2 * (f + c) <= (2 * w - 2) * 0xffff) by (nonlinear_arith)
            requires 0 <= f <= (w - 2) * 0xffff, 0 <= c <= 0xffff;
    }
}

impl Huffman {
    /// Decode one symbol from `reader`, reading a bit at a time until the
    /// code read so far is one of the table's codes.
    pub fn decode(&self, reader: &mut BitReader) -> (result: Option<u16>)
        requires
            old(reader).wf(),
        ensures
            final(reader).wf(),
            final(reader).stream() == old(reader).stream(),
            match decode_symbol(self.counts@, self.symbols@, old(reader).stream(), old(reader).at()) {
                Some((sym, q)) => result == Some(sym) && final(reader).at() == q,
                None => result is None,
            },
    {
        let ghost data = reader.stream();
        let ghost p = reader.at();
        let mut code: i64 = 0;
        let mut first: i64 = 0;
        let mut index: i64 = 0;
        let mut len: usize = 1;
        while len <= MAX_BITS
            invariant
                1 <= len <= 16,
                reader.wf(),
                reader.stream() == data,
                data == old(reader).stream(),
                p == old(reader).at(),
                reader.at() == p + len - 1,
                self.counts@.len() == 16,
                code == 2 * code_msb(data, p, (len - 1) as nat),
                first == canon_first(self.counts@, len as int),
                index == canon_index(self.counts@, len as int),
                decode_symbol(self.counts@, self.symbols@, data, p) == decode_from(self.counts@, self.symbols@, data, p, len as int),
            decreases 16 - len,
        {
            proof {
                lemma_first_bound(self.counts@, len as int);
                lemma_code_bound(data, p, (len - 1) as nat);
                lemma_pow2_bound(len as nat);
                lemma_pow2_bound((len - 1) as nat);
                lemma_bit_at(data, p + len - 1);
            }
            let bit = match reader.bits(1) {
                Some(b) => b,
                None => return None,
            };
            assert(bit == bit_at(data, p + len - 1)) by {
                assert(bits_le(data, p + len - 1, 1) == bits_le(data, p + len - 1, 0) + bit_at(data, p + len - 1) * pow2(0));
            }
            code = code + bit as i64;
            let count = self.counts[len] as i64;
            if code - first < count {
                let idx = index + code - first;
                if idx >= 0 && (idx as usize) < self.symbols.len() {
                    return Some(self.symbols[idx as usize]);
                }
                return None;
            }
            index = index + count;
            first = (first + count) * 2;
            code = code * 2;
            len = len + 1;
        }
        None
    }
}

impl View for Huffman {
    type V = (Seq<u16>, Seq<u16>);

    /// The counts per length and the ordered symbols.
    open spec fn view(&self) -> (Seq<u16>, Seq<u16>) {
        (self.counts@, self.symbols@)
    }
}

/// The table that [`Huffman::build`] makes from valid `lengths`.
pub open spec fn table_of(lengths: Seq<u8>) -> (Seq<u16>, Seq<u16>) {
    (table_counts(lengths), table_symbols(lengths))
}

/// The symbol a table decodes at bit `p`, and where its code ends.
pub open spec fn decodes(table: (Seq<u16>, Seq<u16>), data: Seq<u8>, p: int) -> Option<(u16, int)> {
    decode_symbol(table.0, table.1, data, p)
}

/// Base match length of length symbols 257..=285 (RFC 1951 3.2.5).
pub const LENGTH_BASE: [u16; 29] = [
    3, 4, 5, 6, 7, 8, 9, 10, 11, 13, 15, 17, 19, 23, 27, 31, 35, 43, 51, 59, 67, 83, 99, 115, 131,
    163, 195, 227, 258,
];

/// Extra bits read after each length symbol.
pub const LENGTH_EXTRA: [u8; 29] = [
    0, 0, 0, 0, 0, 0, 0, 0, 1, 1, 1, 1, 2, 2, 2, 2, 3, 3, 3, 3, 4, 4, 4, 4, 5, 5, 5, 5, 0,
];

/// Base distance of distance symbols 0..=29.
pub const DIST_BASE: [u16; 30] = [
    1, 2, 3, 4, 5, 7, 9, 13, 17, 25, 33, 49, 65, 97, 129, 193, 257, 385, 513, 769, 1025, 1537,
    2049, 3073, 4097, 6145, 8193, 12289, 16385, 24577,
];

/// Extra bits read after each distance symbol.
pub const DIST_EXTRA: [u8; 30] = [
    0, 0, 0, 0, 1, 1, 2, 2, 3, 3, 4, 4, 5, 5, 6, 6, 7, 7, 8, 8, 9, 9, 10, 10, 11, 11, 12, 12, 13,
    13,
];

/// The order the code-length alphabet's own lengths are sent in.
pub const CODE_LENGTH_ORDER: [usize; 19] = [
    16, 17, 18, 0, 8, 7, 9, 6, 10, 5, 11, 4, 12, 3, 13, 2, 14, 1, 15,
];

/// Append `n` bytes copied from `dist` back, one byte at a time, so that a
/// copy longer than its distance repeats what it has just written.
pub open spec fn lz_copy(out: Seq<u8>, dist: int, n: nat) -> Seq<u8>
    decreases n,
{
    if n == 0 { out } else { lz_copy(out.push(out[out.len() - dist]), dist, (n - 1) as nat) }
}

/// A length symbol `sym` (257..=285) read just before bit `p`, and the
/// distance code after it: the position after the pair and `out` with the
/// match copied on, or `None` if the stream ends, the distance symbol is
/// unused, the match reaches back before the output's start, or the output
/// would grow past `max` bytes.
pub open spec fn match_result(
    dist: (Seq<u16>, Seq<u16>),
    data: Seq<u8>,
    sym: u16,
    p: int,
    out: Seq<u8>,
    max: int,
) -> Option<(int, Seq<u8>)> {
    let i = sym - 257;
    let le = LENGTH_EXTRA@[i] as nat;
    if p + le > total_bits(data) {
        None
    } else {
        let length = LENGTH_BASE@[i] + bits_le(data, p, le);
        match decodes(dist, data, p + le) {
            None => None,
            Some((dsym, p3)) => {
                if dsym >= 30 {
                    None
                } else {
                    let de = DIST_EXTRA@[dsym as int] as nat;
                    if p3 + de > total_bits(data) {
                        None
                    } else {
                        let d = DIST_BASE@[dsym as int] + bits_le(data, p3, de);
                        if d == 0 || d > out.len() || out.len() + length > max {
                            None
                        } else {
                            Some((p3 + de, lz_copy(out, d, length as nat)))
                        }
                    }
                }
            }
        }
    }
}

pub proof fn lemma_match_advances(dist: (Seq<u16>, Seq<u16>), data: Seq<u8>, sym: u16, p: int, out: Seq<u8>, max: int)
    requires
        257 <= sym <= 285,
    ensures
        match_result(dist, data, sym, p, out, max) matches Some((q, _)) ==> p < q <= total_bits(data),
{
    let le = LENGTH_EXTRA@[sym - 257] as nat;
    lemma_decode_advances(dist.0, dist.1, data, p + le, 1);
}

/// One compressed block decoded from bit `p` onto `out`: the position after
/// its end-of-block symbol and the output, or `None` if the stream is
/// malformed, ends early, or would grow the output past `max` bytes.
pub open spec fn block_result(
    lit: (Seq<u16>, Seq<u16>),
    dist: (Seq<u16>, Seq<u16>),
    data: Seq<u8>,
    p: int,
    out: Seq<u8>,
    max: int,
) -> Option<(int, Seq<u8>)>
    decreases total_bits(data) - p,
{
    match decodes(lit, data, p) {
        None => None,
        Some((sym, p1)) => {
            proof {
                lemma_decode_advances(lit.0, lit.1, data, p, 1);
            }
            if sym < 256 {
                if out.len() >= max { None } else { block_result(lit, dist, data, p1, out.push(sym as u8), max) }
            } else if sym == 256 {
                Some((p1, out))
            } else if sym <= 285 {
                proof {
                    lemma_match_advances(dist, data, sym, p1, out, max);
                }
                match match_result(dist, data, sym, p1, out, max) {
                    None => None,
                    Some((q, o)) => block_result(lit, dist, data, q, o, max),
                }
            } else {
                None
            }
        }
    }
}

/// Read the extra bits and distance code after length symbol `symbol`, and
/// copy the match onto `out`.
#[verifier::spinoff_prover]
#[verifier::rlimit(40)]
fn copy_match(
    reader: &mut BitReader,
    out: &mut Vec<u8>,
    symbol: u16,
    distance: &Huffman,
    max_output: usize,
) -> (result: Option<()>)
    requires
        old(reader).wf(),
        257 <= symbol <= 285,
        old(out)@.len() <= max_output,
    ensures
        final(reader).wf(),
        final(reader).stream() == old(reader).stream(),
        match match_result(distance@, old(reader).stream(), symbol, old(reader).at(), old(out)@, max_output as int) {
            Some((q, o)) => result is Some && final(reader).at() == q && final(out)@ == o,
            None => result is None,
        },
        final(out)@.len() <= max_output,
        old(out)@.is_prefix_of(final(out)@),
{
    let ghost data = reader.stream();
    let index = (symbol - 257) as usize;
    let extra = match reader.bits(LENGTH_EXTRA[index] as u32) {
        Some(e) => e,
        None => return None,
    };
    proof {
        lemma_bits_le_bound(data, reader.at() - LENGTH_EXTRA@[index as int], LENGTH_EXTRA@[index as int] as nat);
        reveal_with_fuel(pow2, 6);
    }
    let length = LENGTH_BASE[index] as usize + extra as usize;
    let dsym = match distance.decode(reader) {
        Some(d) => d as usize,
        None => return None,
    };
    if dsym >= 30 {
        return None;
    }
    let dextra = match reader.bits(DIST_EXTRA[dsym] as u32) {
        Some(e) => e,
        None => return None,
    };
    proof {
        lemma_bits_le_bound(data, reader.at() - DIST_EXTRA@[dsym as int], DIST_EXTRA@[dsym as int] as nat);
        lemma_pow2_bound(DIST_EXTRA@[dsym as int] as nat);
    }
    let dist = DIST_BASE[dsym] as usize + dextra as usize;
    if dist == 0 || dist > out.len() {
        return None;
    }
    if length > max_output - out.len() {
        return None;
    }
    let ghost before = out@;
    let start = out.len() - dist;
    let mut i: usize = 0;
    while i < length
        invariant
            i <= length,
            start + dist == before.len(),
            dist > 0,
            out@.len() == before.len() + i,
            before.is_prefix_of(out@),
            before.len() + length <= max_output,
            lz_copy(before, dist as int, length as nat) == lz_copy(out@, dist as int, (length - i) as nat),
        decreases length - i,
    {
        let byte = out[start + i];
        let ghost prior = out@;
        out.push(byte);
        assert(before.is_prefix_of(out@)) by {
            assert(out@.subrange(0, before.len() as int) =~= prior.subrange(0, before.len() as int));
        }
        i = i + 1;
    }
    Some(())
}

/// Decode one compressed block's symbols onto `out`. The output never grows
/// past `max_output` bytes, checked before every byte is added, so a stream
/// that expands too far is refused while it is still growing.
pub fn inflate_block(
    reader: &mut BitReader,
    out: &mut Vec<u8>,
    literal: &Huffman,
    distance: &Huffman,
    max_output: usize,
) -> (result: Option<()>)
    requires
        old(reader).wf(),
    ensures
        final(reader).wf(),
        final(reader).stream() == old(reader).stream(),
        match block_result(literal@, distance@, old(reader).stream(), old(reader).at(), old(out)@, max_output as int) {
            Some((q, o)) => result is Some && final(reader).at() == q && final(out)@ == o,
            None => result is None,
        },
        final(out)@.len() <= max_output || final(out)@ == old(out)@,
        old(out)@.is_prefix_of(final(out)@),
{
    let ghost data = reader.stream();
    let ghost goal = block_result(literal@, distance@, data, reader.at(), out@, max_output as int);
    loop
        invariant
            reader.wf(),
            reader.stream() == data,
            data == old(reader).stream(),
            goal == block_result(literal@, distance@, old(reader).stream(), old(reader).at(), old(out)@, max_output as int),
            goal == block_result(literal@, distance@, data, reader.at(), out@, max_output as int),
            out@.len() <= max_output || out@ == old(out)@,
            old(out)@.is_prefix_of(out@),
        decreases total_bits(data) - reader.at(),
    {
        let ghost p = reader.at();
        proof {
            lemma_decode_advances(literal.counts@, literal.symbols@, data, p, 1);
        }
        let symbol = match literal.decode(reader) {
            Some(s) => s,
            None => return None,
        };
        if symbol < 256 {
            if out.len() >= max_output {
                return None;
            }
            let ghost prior = out@;
            out.push(symbol as u8);
            assert(old(out)@.is_prefix_of(out@)) by {
                assert(out@.subrange(0, old(out)@.len() as int) =~= prior.subrange(0, old(out)@.len() as int));
            }
        } else if symbol == 256 {
            return Some(());
        } else if symbol <= 285 {
            if out.len() > max_output {
                proof {
                    assert(match_result(distance@, data, symbol, reader.at(), out@, max_output as int) is None);
                }
                return None;
            }
            proof {
                lemma_match_advances(distance@, data, symbol, reader.at(), out@, max_output as int);
            }
            if copy_match(reader, out, symbol, distance, max_output).is_none() {
                return None;
            }
        } else {
            return None;
        }
    }
}

/// The fixed literal/length code lengths (RFC 1951 3.2.6).
pub open spec fn fixed_literal_lengths() -> Seq<u8> {
    Seq::new(288, |i: int| if i < 144 { 8u8 } else if i < 256 { 9u8 } else if i < 280 { 7u8 } else { 8u8 })
}

/// The fixed distance code lengths: five bits for every symbol.
pub open spec fn fixed_distance_lengths() -> Seq<u8> {
    Seq::new(30, |i: int| 5u8)
}

/// The fixed literal/length and distance tables of block type 1.
pub fn fixed_tables() -> (result: (Huffman, Huffman))
    ensures
        result.0@ == table_of(fixed_literal_lengths()),
        result.1@ == table_of(fixed_distance_lengths()),
{
    let mut literal = [0u8; 288];
    let mut i: usize = 0;
    while i < 288
        invariant
            i <= 288,
            forall|j: int| 0 <= j < i ==> #[trigger] literal@[j] == fixed_literal_lengths()[j],
        decreases 288 - i,
    {
        let len: u8 = if i < 144 { 8 } else if i < 256 { 9 } else if i < 280 { 7 } else { 8 };
        literal[i] = len;
        i = i + 1;
    }
    let distance = [5u8; 30];
    assert(literal@ =~= fixed_literal_lengths());
    assert(distance@ =~= fixed_distance_lengths());
    let lit = match Huffman::build(&literal) {
        Some(h) => h,
        None => {
            proof {
                assert(lengths_valid(literal@));
            }
            return (Huffman { counts: [0u16; 16], symbols: Vec::new() }, Huffman { counts: [0u16; 16], symbols: Vec::new() });
        }
    };
    let dist = match Huffman::build(&distance) {
        Some(h) => h,
        None => {
            proof {
                assert(lengths_valid(distance@));
            }
            return (lit, Huffman { counts: [0u16; 16], symbols: Vec::new() });
        }
    };
    (lit, dist)
}

/// The code-length alphabet's own lengths after `k` of them have been read,
/// three bits each from bit `p`, each stored at its place in
/// [`CODE_LENGTH_ORDER`].
pub open spec fn cl_lengths(data: Seq<u8>, p: int, k: nat) -> Seq<u8>
    decreases k,
{
    if k == 0 {
        Seq::new(19, |j: int| 0u8)
    } else {
        cl_lengths(data, p, (k - 1) as nat).update(
            CODE_LENGTH_ORDER@[k - 1] as int,
            bits_le(data, p + 3 * (k - 1), 3) as u8,
        )
    }
}

/// Run-length decoding of code lengths through the code-length table `cl`,
/// from bit `p`, appending to `acc` until `want` lengths are known: symbols
/// 0..=15 are lengths, 16 repeats the previous length 3–6 times, 17 and 18
/// give runs of 3–10 and 11–138 zeros. `None` if the stream ends, a symbol
/// is unused, 16 has nothing to repeat, or a run overshoots `want`.
pub open spec fn rle_lengths(cl: (Seq<u16>, Seq<u16>), data: Seq<u8>, p: int, acc: Seq<u8>, want: int) -> Option<(int, Seq<u8>)>
    decreases total_bits(data) - p,
{
    if acc.len() >= want {
        Some((p, acc))
    } else {
        match decodes(cl, data, p) {
            None => None,
            Some((sym, p1)) => {
                proof {
                    lemma_decode_advances(cl.0, cl.1, data, p, 1);
                }
                let step: Option<(int, Seq<u8>)> = if sym <= 15 {
                    Some((p1, acc.push(sym as u8)))
                } else if sym == 16 {
                    if acc.len() == 0 || p1 + 2 > total_bits(data) {
                        None
                    } else {
                        Some((p1 + 2, acc + Seq::new(bits_le(data, p1, 2) + 3, |i: int| acc.last())))
                    }
                } else if sym == 17 {
                    if p1 + 3 > total_bits(data) {
                        None
                    } else {
                        Some((p1 + 3, acc + Seq::new(bits_le(data, p1, 3) + 3, |i: int| 0u8)))
                    }
                } else if sym == 18 {
                    if p1 + 7 > total_bits(data) {
                        None
                    } else {
                        Some((p1 + 7, acc + Seq::new(bits_le(data, p1, 7) + 11, |i: int| 0u8)))
                    }
                } else {
                    None
                };
                match step {
                    None => None,
                    Some((q, a)) => if a.len() > want { None } else { rle_lengths(cl, data, q, a, want) },
                }
            }
        }
    }
}

/// The literal/length and distance tables a dynamic block's header
/// (RFC 1951 3.2.7) describes from bit `p`, and the position after it.
pub open spec fn dynamic_tables_result(data: Seq<u8>, p: int) -> Option<((Seq<u16>, Seq<u16>), (Seq<u16>, Seq<u16>), int)> {
    if p + 14 > total_bits(data) {
        None
    } else {
        let hlit = bits_le(data, p, 5) + 257;
        let hdist = bits_le(data, p + 5, 5) + 1;
        let hclen = bits_le(data, p + 10, 4) + 4;
        let q = p + 14;
        if q + 3 * hclen > total_bits(data) {
            None
        } else {
            let cl = table_of(cl_lengths(data, q, hclen as nat));
            match rle_lengths(cl, data, q + 3 * hclen, Seq::empty(), (hlit + hdist) as int) {
                None => None,
                Some((r, lens)) => Some((
                    table_of(lens.subrange(0, hlit as int)),
                    table_of(lens.subrange(hlit as int, lens.len() as int)),
                    r,
                )),
            }
        }
    }
}

/// Push `n` copies of `value`.
fn push_run(out: &mut Vec<u8>, value: u8, n: u32)
    ensures
        final(out)@ == old(out)@ + Seq::new(n as nat, |i: int| value),
{
    let mut i: u32 = 0;
    while i < n
        invariant
            i <= n,
            out@ == old(out)@ + Seq::new(i as nat, |j: int| value),
        decreases n - i,
    {
        out.push(value);
        i = i + 1;
        assert(out@ =~= old(out)@ + Seq::new(i as nat, |j: int| value));
    }
}

/// Read a dynamic block's header: the code-length alphabet's lengths, then
/// the literal/length and distance lengths, run-length coded through it.
fn read_dynamic_tables(reader: &mut BitReader) -> (result: Option<(Huffman, Huffman)>)
    requires
        old(reader).wf(),
    ensures
        final(reader).wf(),
        final(reader).stream() == old(reader).stream(),
        match dynamic_tables_result(old(reader).stream(), old(reader).at()) {
            Some((l, d, r)) => result matches Some((a, b)) && a@ == l && b@ == d && final(reader).at() == r,
            None => result is None,
        },
{
    let ghost data = reader.stream();
    let ghost p = reader.at();
    let a = match reader.bits(5) {
        Some(v) => v,
        None => return None,
    };
    let b = match reader.bits(5) {
        Some(v) => v,
        None => return None,
    };
    let c = match reader.bits(4) {
        Some(v) => v,
        None => return None,
    };
    proof {
        lemma_bits_le_bound(data, p, 5);
        lemma_bits_le_bound(data, p + 5, 5);
        lemma_bits_le_bound(data, p + 10, 4);
        reveal_with_fuel(pow2, 6);
    }
    let hlit = a as usize + 257;
    let hdist = b as usize + 1;
    let hclen = c as usize + 4;
    let ghost q = reader.at();
    let mut cl = [0u8; 19];
    let mut k: usize = 0;
    assert(cl@ =~= cl_lengths(data, q, 0));
    while k < hclen
        invariant
            reader.wf(),
            reader.stream() == data,
            data == old(reader).stream(),
            p == old(reader).at(),
            q == p + 14,
            hlit == bits_le(data, p, 5) + 257,
            hdist == bits_le(data, p + 5, 5) + 1,
            hclen == bits_le(data, p + 10, 4) + 4,
            hclen <= 19,
            k <= hclen,
            reader.at() == q + 3 * k,
            cl@ == cl_lengths(data, q, k as nat),
            forall|j: int| 0 <= j < 19 ==> #[trigger] cl@[j] <= 7,
        decreases hclen - k,
    {
        let v = match reader.bits(3) {
            Some(v) => v,
            None => return None,
        };
        proof {
            lemma_bits_le_bound(data, q + 3 * k, 3);
            reveal_with_fuel(pow2, 4);
        }
        cl[CODE_LENGTH_ORDER[k]] = v as u8;
        k = k + 1;
    }
    let cl_table = match Huffman::build(&cl) {
        Some(t) => t,
        None => return None,
    };
    let want = hlit + hdist;
    let ghost start = reader.at();
    let ghost goal = rle_lengths(cl_table@, data, start, Seq::empty(), want as int);
    let mut lengths: Vec<u8> = Vec::new();
    while lengths.len() < want
        invariant
            reader.wf(),
            reader.stream() == data,
            data == old(reader).stream(),
            p == old(reader).at(),
            q == p + 14,
            hlit == bits_le(data, p, 5) + 257,
            hdist == bits_le(data, p + 5, 5) + 1,
            hclen == bits_le(data, p + 10, 4) + 4,
            start == q + 3 * hclen,
            want == hlit + hdist,
            cl_table@ == table_of(cl_lengths(data, q, hclen as nat)),
            goal == rle_lengths(cl_table@, data, start, Seq::empty(), want as int),
            want <= 320,
            lengths@.len() <= want,
            forall|j: int| 0 <= j < lengths@.len() ==> #[trigger] lengths@[j] <= 15,
            goal == rle_lengths(cl_table@, data, reader.at(), lengths@, want as int),
        decreases total_bits(data) - reader.at(),
    {
        let ghost at = reader.at();
        let ghost acc = lengths@;
        proof {
            lemma_decode_advances(cl_table.counts@, cl_table.symbols@, data, at, 1);
        }
        let symbol = match cl_table.decode(reader) {
            Some(s) => s,
            None => return None,
        };
        let ghost p1 = reader.at();
        if symbol <= 15 {
            lengths.push(symbol as u8);
        } else if symbol == 16 {
            if lengths.len() == 0 {
                return None;
            }
            let previous = lengths[lengths.len() - 1];
            let r = match reader.bits(2) {
                Some(v) => v,
                None => return None,
            };
            proof {
                lemma_bits_le_bound(data, p1, 2);
                reveal_with_fuel(pow2, 3);
            }
            push_run(&mut lengths, previous, r + 3);
            assert(lengths@ =~= acc + Seq::new(bits_le(data, p1, 2) + 3, |i: int| acc.last()));
        } else if symbol == 17 {
            let r = match reader.bits(3) {
                Some(v) => v,
                None => return None,
            };
            proof {
                lemma_bits_le_bound(data, p1, 3);
                reveal_with_fuel(pow2, 4);
            }
            push_run(&mut lengths, 0, r + 3);
        } else if symbol == 18 {
            let r = match reader.bits(7) {
                Some(v) => v,
                None => return None,
            };
            proof {
                lemma_bits_le_bound(data, p1, 7);
                reveal_with_fuel(pow2, 8);
            }
            push_run(&mut lengths, 0, r + 11);
        } else {
            return None;
        }
        if lengths.len() > want {
            return None;
        }
    }
    let literal = match Huffman::build(&lengths.as_slice()[0..hlit]) {
        Some(t) => t,
        None => return None,
    };
    let distance = match Huffman::build(&lengths.as_slice()[hlit..want]) {
        Some(t) => t,
        None => return None,
    };
    Some((literal, distance))
}

pub proof fn lemma_block_advances(
    lit: (Seq<u16>, Seq<u16>),
    dist: (Seq<u16>, Seq<u16>),
    data: Seq<u8>,
    p: int,
    out: Seq<u8>,
    max: int,
)
    ensures
        block_result(lit, dist, data, p, out, max) matches Some((q, o)) ==> p < q <= total_bits(data)
            && (out.len() <= max ==> o.len() <= max),
    decreases total_bits(data) - p,
{
    lemma_decode_advances(lit.0, lit.1, data, p, 1);
    if let Some((sym, p1)) = decodes(lit, data, p) {
        if sym < 256 {
            if out.len() < max {
                lemma_block_advances(lit, dist, data, p1, out.push(sym as u8), max);
            }
        } else if 256 < sym <= 285 {
            lemma_match_advances(dist, data, sym, p1, out, max);
            if let Some((q, o)) = match_result(dist, data, sym, p1, out, max) {
                lemma_lz_copy_len(out, match_distance(dist, data, sym, p1), match_length(data, sym, p1));
                lemma_block_advances(lit, dist, data, q, o, max);
            }
        }
    }
}

/// The match length a length symbol and its extra bits give.
pub open spec fn match_length(data: Seq<u8>, sym: u16, p: int) -> nat {
    (LENGTH_BASE@[sym - 257] + bits_le(data, p, LENGTH_EXTRA@[sym - 257] as nat)) as nat
}

/// The match distance that follows a length symbol read just before `p`.
pub open spec fn match_distance(dist: (Seq<u16>, Seq<u16>), data: Seq<u8>, sym: u16, p: int) -> int {
    let le = LENGTH_EXTRA@[sym - 257] as nat;
    match decodes(dist, data, p + le) {
        Some((dsym, p3)) => DIST_BASE@[dsym as int] + bits_le(data, p3, DIST_EXTRA@[dsym as int] as nat),
        None => 0,
    }
}

proof fn lemma_lz_copy_len(out: Seq<u8>, d: int, n: nat)
    ensures
        lz_copy(out, d, n).len() == out.len() + n,
    decreases n,
{
    if n > 0 {
        lemma_lz_copy_len(out.push(out[out.len() - d]), d, (n - 1) as nat);
    }
}

/// The first byte boundary at or after bit `p`.
pub open spec fn byte_align(p: int) -> int {
    ((p + 7) / 8) * 8
}

/// A stored block whose header starts at bit `p` (just after the block's
/// three header bits): skip to a byte boundary, read `LEN` and its
/// complement `NLEN`, then copy `LEN` bytes.
pub open spec fn stored_result(data: Seq<u8>, p: int, out: Seq<u8>, max: int) -> Option<(int, Seq<u8>)> {
    let q = byte_align(p);
    if q + 32 > total_bits(data) {
        None
    } else {
        let len = bits_le(data, q, 16);
        let nlen = bits_le(data, q + 16, 16);
        let start = (q + 32) / 8;
        if len + nlen != 0xffff || out.len() + len > max || start + len > data.len() {
            None
        } else {
            Some(((start + len) * 8, out + data.subrange(start, start + len)))
        }
    }
}

/// The blocks of a raw DEFLATE stream from bit `p` on, decoded onto `out`:
/// each block has a final-block bit and a two-bit type (0 stored, 1 fixed
/// Huffman, 2 dynamic Huffman); the output after the final block, or `None`
/// if any block is malformed or the output would pass `max` bytes.
pub open spec fn stream_result(data: Seq<u8>, p: int, out: Seq<u8>, max: int) -> Option<Seq<u8>>
    decreases total_bits(data) - p,
{
    if p < 0 || p + 3 > total_bits(data) {
        None
    } else {
        let is_final = bits_le(data, p, 1) != 0;
        let kind = bits_le(data, p + 1, 2);
        let p1 = p + 3;
        let next: Option<(int, Seq<u8>)> = if kind == 0 {
            stored_result(data, p1, out, max)
        } else if kind == 1 {
            block_result(table_of(fixed_literal_lengths()), table_of(fixed_distance_lengths()), data, p1, out, max)
        } else if kind == 2 {
            match dynamic_tables_result(data, p1) {
                None => None,
                Some((l, d, r)) => block_result(l, d, data, r, out, max),
            }
        } else {
            None
        };
        proof {
            lemma_stored_advances(data, p1, out, max);
            lemma_block_advances(table_of(fixed_literal_lengths()), table_of(fixed_distance_lengths()), data, p1, out, max);
            lemma_dynamic_advances(data, p1, out, max);
        }
        match next {
            None => None,
            Some((q, o)) => if is_final { Some(o) } else { stream_result(data, q, o, max) },
        }
    }
}

pub proof fn lemma_rle_advances(cl: (Seq<u16>, Seq<u16>), data: Seq<u8>, p: int, acc: Seq<u8>, want: int)
    ensures
        rle_lengths(cl, data, p, acc, want) matches Some((q, _)) ==> p <= q,
    decreases total_bits(data) - p,
{
    if acc.len() < want {
        lemma_decode_advances(cl.0, cl.1, data, p, 1);
        if let Some((sym, p1)) = decodes(cl, data, p) {
            if sym <= 15 {
                lemma_rle_advances(cl, data, p1, acc.push(sym as u8), want);
            } else if sym == 16 && acc.len() != 0 && p1 + 2 <= total_bits(data) {
                lemma_rle_advances(cl, data, p1 + 2, acc + Seq::new(bits_le(data, p1, 2) + 3, |i: int| acc.last()), want);
            } else if sym == 17 && p1 + 3 <= total_bits(data) {
                lemma_rle_advances(cl, data, p1 + 3, acc + Seq::new(bits_le(data, p1, 3) + 3, |i: int| 0u8), want);
            } else if sym == 18 && p1 + 7 <= total_bits(data) {
                lemma_rle_advances(cl, data, p1 + 7, acc + Seq::new(bits_le(data, p1, 7) + 11, |i: int| 0u8), want);
            }
        }
    }
}

proof fn lemma_byte_align(p: int)
    requires
        0 <= p,
    ensures
        p <= byte_align(p) < p + 8,
        byte_align(p) % 8 == 0,
        (byte_align(p) + 32) / 8 * 8 == byte_align(p) + 32,
{
    assert(p <= ((p + 7) / 8) * 8 < p + 8) by (nonlinear_arith) requires 0 <= p;
    assert((((p + 7) / 8) * 8) % 8 == 0) by (nonlinear_arith);
    assert((((p + 7) / 8) * 8 + 32) / 8 * 8 == ((p + 7) / 8) * 8 + 32) by (nonlinear_arith);
}

/// A stored block ends after it starts and keeps the output within `max`.
pub proof fn lemma_stored_advances(data: Seq<u8>, p: int, out: Seq<u8>, max: int)
    requires
        0 <= p,
    ensures
        stored_result(data, p, out, max) matches Some((q, o)) ==> p <= q <= total_bits(data) && o.len() <= max,
{
    lemma_byte_align(p);
}

/// A dynamic block's header ends after it starts, and so does its block.
pub proof fn lemma_dynamic_advances(data: Seq<u8>, p: int, out: Seq<u8>, max: int)
    ensures
        dynamic_tables_result(data, p) matches Some((l, d, r)) ==> p <= r
            && (block_result(l, d, data, r, out, max) matches Some((q, o)) ==> p <= q <= total_bits(data) && (out.len() <= max ==> o.len() <= max)),
{
    if p + 14 <= total_bits(data) {
        let hclen = bits_le(data, p + 10, 4) + 4;
        let q = p + 14;
        let cl = table_of(cl_lengths(data, q, hclen as nat));
        let hlit = bits_le(data, p, 5) + 257;
        let hdist = bits_le(data, p + 5, 5) + 1;
        lemma_rle_advances(cl, data, q + 3 * hclen, Seq::empty(), (hlit + hdist) as int);
        if let Some((l, d, r)) = dynamic_tables_result(data, p) {
            lemma_block_advances(l, d, data, r, out, max);
        }
    }
}

/// Copy a stored block's bytes onto `out`.
fn inflate_stored(reader: &mut BitReader, out: &mut Vec<u8>, max_output: usize) -> (result: Option<()>)
    requires
        old(reader).wf(),
        old(out)@.len() <= max_output,
    ensures
        final(reader).wf(),
        final(reader).stream() == old(reader).stream(),
        match stored_result(old(reader).stream(), old(reader).at(), old(out)@, max_output as int) {
            Some((q, o)) => result is Some && final(reader).at() == q && final(out)@ == o,
            None => result is None,
        },
        final(out)@.len() <= max_output,
{
    let ghost data = reader.stream();
    let ghost p = reader.at();
    proof {
        lemma_byte_align(p);
    }
    reader.align_byte();
    assert(reader.at() == byte_align(p)) by (nonlinear_arith)
        requires p <= reader.at() < p + 8, reader.at() % 8 == 0, p <= byte_align(p) < p + 8, byte_align(p) % 8 == 0;
    let len = match reader.bits(16) {
        Some(v) => v,
        None => return None,
    };
    let nlen = match reader.bits(16) {
        Some(v) => v,
        None => return None,
    };
    proof {
        lemma_bits_le_bound(data, byte_align(p), 16);
        lemma_bits_le_bound(data, byte_align(p) + 16, 16);
        lemma_pow2_bound(16);
        assert((reader.at() + 7) / 8 == (byte_align(p) + 32) / 8) by (nonlinear_arith)
            requires reader.at() == byte_align(p) + 32, (byte_align(p) + 32) / 8 * 8 == byte_align(p) + 32;
    }
    if len + nlen != 0xffff {
        return None;
    }
    if len as usize > max_output - out.len() {
        return None;
    }
    let bytes = match reader.take_bytes(len as usize) {
        Some(b) => b,
        None => return None,
    };
    push_all(out, bytes);
    Some(())
}

/// Inflate a raw DEFLATE stream (no zlib framing), refusing to produce more
/// than `max_output` bytes.
pub fn inflate(data: &[u8], max_output: usize) -> (result: Option<Vec<u8>>)
    ensures
        match stream_result(data@, 0, Seq::empty(), max_output as int) {
            Some(o) => result matches Some(v) && v@ == o,
            None => result is None,
        },
        result matches Some(v) ==> v@.len() <= max_output,
{
    let mut reader = BitReader::new(data);
    let mut out: Vec<u8> = Vec::new();
    let ghost goal = stream_result(data@, 0, Seq::empty(), max_output as int);
    loop
        invariant
            reader.wf(),
            reader.stream() == data@,
            0 <= reader.at(),
            out@.len() <= max_output,
            goal == stream_result(data@, 0, Seq::empty(), max_output as int),
            goal == stream_result(data@, reader.at(), out@, max_output as int),
        decreases total_bits(data@) - reader.at(),
    {
        let ghost p = reader.at();
        proof {
            lemma_stored_advances(data@, p + 3, out@, max_output as int);
            lemma_block_advances(table_of(fixed_literal_lengths()), table_of(fixed_distance_lengths()), data@, p + 3, out@, max_output as int);
            lemma_dynamic_advances(data@, p + 3, out@, max_output as int);
        }
        let is_final = match reader.bits(1) {
            Some(b) => b != 0,
            None => return None,
        };
        let kind = match reader.bits(2) {
            Some(k) => k,
            None => return None,
        };
        let done = if kind == 0 {
            inflate_stored(&mut reader, &mut out, max_output)
        } else if kind == 1 {
            let (literal, distance) = fixed_tables();
            inflate_block(&mut reader, &mut out, &literal, &distance, max_output)
        } else if kind == 2 {
            match read_dynamic_tables(&mut reader) {
                Some((literal, distance)) => inflate_block(&mut reader, &mut out, &literal, &distance, max_output),
                None => None,
            }
        } else {
            None
        };
        if done.is_none() {
            return None;
        }
        if is_final {
            return Some(out);
        }
    }
}

/// What a zlib stream (RFC 1950) holding DEFLATE data decompresses to: the
/// two header bytes must pass their check, name DEFLATE and use no preset
/// dictionary, and the Adler-32 trailer must match the output.
pub open spec fn zlib_result(data: Seq<u8>, max: int) -> Option<Seq<u8>> {
    if data.len() < 2 {
        None
    } else {
        let cmf = data[0];
        let flg = data[1];
        if (cmf * 256 + flg) % 31 != 0 || cmf & 0x0f != 8 || flg & 0x20 != 0 || data.len() < 6 {
            None
        } else {
            match stream_result(data.subrange(2, data.len() - 4), 0, Seq::empty(), max) {
                None => None,
                Some(o) => if adler32_spec(o) != read_be32(data.subrange(data.len() - 4, data.len() as int)) {
                    None
                } else {
                    Some(o)
                },
            }
        }
    }
}

/// Inflate a zlib-wrapped stream, as PNG's `IDAT` holds, and check its
/// Adler-32 trailer. The output is refused as soon as it would pass
/// `max_output` bytes.
pub fn zlib_decompress(data: &[u8], max_output: usize) -> (result: Option<Vec<u8>>)
    ensures
        match zlib_result(data@, max_output as int) {
            Some(o) => result matches Some(v) && v@ == o,
            None => result is None,
        },
        result matches Some(v) ==> v@.len() <= max_output
            && adler32_spec(v@) == read_be32(data@.subrange(data@.len() - 4, data@.len() as int)),
{
    if data.len() < 2 {
        return None;
    }
    let cmf = data[0];
    let flg = data[1];
    if (cmf as u32 * 256 + flg as u32) % 31 != 0 {
        return None;
    }
    if cmf & 0x0f != 8 {
        return None;
    }
    if flg & 0x20 != 0 {
        return None;
    }
    if data.len() < 6 {
        return None;
    }
    let trailer_start = data.len() - 4;
    let compressed = &data[2..trailer_start];
    let out = match inflate(compressed, max_output) {
        Some(o) => o,
        None => return None,
    };
    let expected = be32_at(data, trailer_start);
    if adler32(out.as_slice()) != expected {
        return None;
    }
    Some(out)
}

} // verus!
