//! The searches of the NEON table lookup (AArch64): the bytes searched for
//! are a 256-bit set, and each byte of the haystack is looked up in it, 16
//! lanes at a time. The iterator packs the matches of 64 bytes into one
//! `u64` and hands them out a bit at a time.
//!
//! Based on [this algorithm][1] simplified somewhat by aarch64 neon (by the ability to make a
//! table of 32 bytes by combining two vectors), combined with 64 byte movemask via interleaving
//! from [here][2], and the iteration idea (using a u64 bitset of known matches) from [here][3].
//!
//! [1]: http://0x80.pl/notesen/2018-10-18-simd-byte-lookup.html
//! [2]: https://community.arm.com/arm-community-blogs/b/servers-and-cloud-computing-blog/posts/porting-x86-vector-bitmask-optimizations-to-arm-neon
//! [3]: https://lemire.me/blog/2024/07/20/scan-html-even-faster-with-simd-instructions-c-and-c/
use vstd::prelude::*;
use crate::matching::{
    count_where, first_in, first_in_from, in_set_at, lemma_count_bound, lemma_count_none, lemma_count_reverse,
    lemma_count_shift, lemma_count_split, lemma_positions_count, lemma_positions_exact, lemma_positions_step,
    positions_in,
};

verus! {

broadcast use vstd::std_specs::bits::axiom_u64_trailing_zeros, vstd::std_specs::bits::axiom_u64_leading_zeros;

/// Mapping from a number `i` in 0..=7 to a bit mask with the `i`-th bit set.
const N_TO_N_BITS_TABLE: [u8; 16] = [1, 2, 4, 8, 16, 32, 64, 128, 0, 0, 0, 0, 0, 0, 0, 0];

/// Bit `k` of `x` is set.
pub open spec fn bit8(x: u8, k: u8) -> bool {
    (x >> k) & 1u8 == 1u8
}

/// Whether byte `b` is in the 256-bit set `bitset`: bit `b % 8` of byte
/// `b / 8`.
pub open spec fn in_bitset(bitset: Seq<u8>, b: u8) -> bool {
    bit8(bitset[(b >> 3u8) as int], b & 7u8)
}

proof fn lemma_set_bit8(x: u8, m: u8, c: u8)
    requires
        m < 8,
        c < 8,
    ensures
        bit8(x | (1u8 << m), c) == (bit8(x, c) || m == c),
{
    assert(bit8(x | (1u8 << m), c) == (bit8(x, c) || m == c)) by (bit_vector)
        requires m < 8u8, c < 8u8;
}

proof fn lemma_byte_split(v: u8)
    ensures
        v / 8 == v >> 3u8,
        v % 8 == v & 7u8,
        v >> 3u8 < 32,
        v & 7u8 < 8,
{
    assert(v / 8 == v >> 3u8 && v % 8 == v & 7u8 && v >> 3u8 < 32 && v & 7u8 < 8) by (bit_vector);
}

proof fn lemma_test_bit(x: u8, k: u8)
    requires
        k < 8,
    ensures
        (x & (1u8 << k) != 0) == bit8(x, k),
{
    assert((x & (1u8 << k) != 0) == bit8(x, k)) by (bit_vector)
        requires k < 8u8;
}

proof fn lemma_bit8_zero(k: u8)
    ensures
        !bit8(0, k),
{
    assert(!bit8(0, k)) by (bit_vector);
}

/// Searches for the bytes of a 256-bit set.
#[derive(Clone, Copy)]
pub struct Bytes {
    bitset: [u8; 32],
}

impl Bytes {
    /// The bytes searched for.
    pub closed spec fn needle_set(&self) -> Set<u8> {
        Set::new(|b: u8| in_bitset(self.bitset@, b))
    }

    /// Searches for the first `needle_len` bytes of `bytes`.
    pub fn new(bytes: [u8; 16], needle_len: i32) -> (s: Self)
        requires
            0 <= needle_len <= 16,
        ensures
            s.needle_set() == bytes@.subrange(0, needle_len as int).to_set(),
    {
        let needle_len = needle_len as u8;

        // Make a bitset from the bytes to search for
        let mut bitset = [0u8; 32];
        proof {
            assert forall|b: u8| !#[trigger] in_bitset(bitset@, b) by {
                lemma_byte_split(b);
                lemma_bit8_zero(b & 7u8);
            }
        }
        for i in 0..needle_len
            invariant
                needle_len <= 16,
                forall|b: u8| #[trigger] in_bitset(bitset@, b) == bytes@.subrange(0, i as int).contains(b),
        {
            let value = bytes[i as usize];
            let byte = (value / 8) as usize;
            let bit = value % 8;
            let mask: u8 = 1 << bit;
            let ghost old_bitset = bitset@;
            bitset[byte] = bitset[byte] | mask;
            proof {
                lemma_byte_split(value);
                let sub0 = bytes@.subrange(0, i as int);
                let sub1 = bytes@.subrange(0, i + 1);
                assert(sub1 =~= sub0.push(value));
                assert forall|b: u8| #[trigger] in_bitset(bitset@, b) == sub1.contains(b) by {
                    lemma_byte_split(b);
                    lemma_set_bit8(old_bitset[byte as int], bit, b & 7u8);
                    assert(in_bitset(old_bitset, b) == sub0.contains(b));
                    if (b >> 3u8) as int == byte as int && b & 7u8 == bit {
                        lemma_same_byte(b, value);
                    }
                    if b == value {
                        assert(sub1[i as int] == b);
                    }
                    if sub0.contains(b) {
                        let k = choose|k: int| 0 <= k < sub0.len() && #[trigger] sub0[k] == b;
                        assert(sub1[k] == b);
                    }
                    if sub1.contains(b) && b != value {
                        let k = choose|k: int| 0 <= k < sub1.len() && #[trigger] sub1[k] == b;
                        assert(sub0[k] == b);
                    }
                }
            }
        }
        proof {
            assert(Set::new(|b: u8| in_bitset(bitset@, b)) =~= bytes@.subrange(0, needle_len as int).to_set());
        }
        Bytes { bitset }
    }

    /// Looks up each of the 16 bytes of `v`: a lane of the result is 255
    /// when its byte is searched for, 0 when not.
    fn locale_in_vector(&self, v: &[u8; 16]) -> (r: [u8; 16])
        ensures
            forall|k: int| 0 <= k < 16 ==> #[trigger] r@[k] == (if self.needle_set().contains(v@[k]) { 255u8 } else { 0u8 }),
    {
        let mut r = [0u8; 16];
        for k in 0..16
            invariant
                forall|m: int| 0 <= m < k ==> #[trigger] r@[m] == (if self.needle_set().contains(v@[m]) { 255u8 } else { 0u8 }),
        {
            proof {
                lemma_byte_split(v@[k as int]);
            }
            let high_bits = v[k] >> 3u8;
            let low_bit_mask = self.bitset[high_bits as usize];
            let low_bits = v[k] & 0b0111u8;
            let low_bits = N_TO_N_BITS_TABLE[low_bits as usize];
            proof {
                lemma_table_bit(v@[k as int] & 7u8);
                lemma_test_bit(low_bit_mask, v@[k as int] & 7u8);
                assert(low_bits & low_bit_mask == low_bit_mask & low_bits) by (bit_vector);
            }
            r[k] = if low_bits & low_bit_mask != 0 { 255 } else { 0 };
        }
        r
    }

    /// Searches the haystack 16 bytes at a time; the last, partial vector
    /// is padded with zeros, and matches in the padding are not reported.
    pub fn find(&self, haystack: &[u8]) -> (res: Option<usize>)
        ensures
            first_in(haystack@, self.needle_set(), res),
    {
        let mut offset: usize = 0;
        proof {
            assert(haystack@.len() == haystack.len());
        }
        while haystack.len() - offset >= 16
            invariant
                offset <= haystack@.len() <= usize::MAX,
                forall|j: int| 0 <= j < offset ==> !self.needle_set().contains(#[trigger] haystack@[j]),
            decreases haystack@.len() - offset,
        {
            let chunk = &haystack[offset..offset + 16];
            let vector = load_vector(chunk);
            let result = self.locale_in_vector(&vector);
            if let Some(element) = first_element_set(&result) {
                proof {
                    self.lemma_no_match_before(haystack@, offset as int, chunk@, vector@, result@, element as int);
                    assert(result@[element as int] == 255);
                }
                return Some(offset + element as usize);
            }
            proof {
                self.lemma_no_match_before(haystack@, offset as int, chunk@, vector@, result@, 16);
            }
            offset += 16;
        }
        let remaining = &haystack[offset..haystack.len()];
        let fake_vector = load_vector(remaining);
        let result = self.locale_in_vector(&fake_vector);
        if let Some(element) = first_element_set(&result) {
            if (element as usize) < remaining.len() {
                proof {
                    self.lemma_no_match_before(haystack@, offset as int, remaining@, fake_vector@, result@, element as int);
                    assert(result@[element as int] == 255);
                }
                return Some(offset + element as usize);
            }
            proof {
                self.lemma_no_match_before(haystack@, offset as int, remaining@, fake_vector@, result@, remaining@.len() as int);
            }
        } else {
            proof {
                self.lemma_no_match_before(haystack@, offset as int, remaining@, fake_vector@, result@, remaining@.len() as int);
            }
        }
        None
    }
}

impl Bytes {
    /// Lanes of a lookup that are all 0 add no match: none comes before
    /// `offset + end` when none came before `offset`.
    proof fn lemma_no_match_before(&self, hay: Seq<u8>, offset: int, chunk: Seq<u8>, vector: Seq<u8>, result: Seq<u8>, end: int)
        requires
            0 <= offset,
            0 <= end <= chunk.len() <= 16,
            offset + chunk.len() <= hay.len(),
            chunk == hay.subrange(offset, offset + chunk.len()),
            forall|k: int| 0 <= k < 16 ==> #[trigger] vector[k] == (if k < chunk.len() { chunk[k] } else { 0u8 }),
            forall|k: int| 0 <= k < 16 ==> #[trigger] result[k] == (if self.needle_set().contains(vector[k]) { 255u8 } else { 0u8 }),
            forall|k: int| 0 <= k < end ==> #[trigger] result[k] == 0,
            forall|j: int| 0 <= j < offset ==> !self.needle_set().contains(#[trigger] hay[j]),
        ensures
            forall|j: int| 0 <= j < offset + end ==> !self.needle_set().contains(#[trigger] hay[j]),
    {
        assert forall|j: int| 0 <= j < offset + end implies !self.needle_set().contains(#[trigger] hay[j]) by {
            if j >= offset {
                assert(result[j - offset] == 0);
                assert(vector[j - offset] == chunk[j - offset]);
            }
        }
    }
}

/// Loads up to 16 bytes into a vector, padding it with zeros.
fn load_vector(bytes: &[u8]) -> (r: [u8; 16])
    requires
        bytes@.len() <= 16,
    ensures
        forall|k: int| 0 <= k < 16 ==> #[trigger] r@[k] == (if k < bytes@.len() { bytes@[k] } else { 0u8 }),
{
    let mut r = [0u8; 16];
    for k in 0..bytes.len()
        invariant
            bytes@.len() <= 16,
            forall|m: int| 0 <= m < 16 ==> #[trigger] r@[m] == (if m < k { bytes@[m] } else { 0u8 }),
    {
        r[k] = bytes[k];
    }
    r
}

/// The table holds the mask of bit `k` at position `k`.
proof fn lemma_table_bit(k: u8)
    requires
        k < 8,
    ensures
        N_TO_N_BITS_TABLE[k as int] == 1u8 << k,
{
    assert(1u8 << 0u8 == 1 && 1u8 << 1u8 == 2 && 1u8 << 2u8 == 4 && 1u8 << 3u8 == 8 && 1u8 << 4u8 == 16
        && 1u8 << 5u8 == 32 && 1u8 << 6u8 == 64 && 1u8 << 7u8 == 128) by (bit_vector);
}

proof fn lemma_same_byte(a: u8, b: u8)
    requires
        a >> 3u8 == b >> 3u8,
        a & 7u8 == b & 7u8,
    ensures
        a == b,
{
    assert(a >> 3u8 == b >> 3u8 && a & 7u8 == b & 7u8 ==> a == b) by (bit_vector);
}


/// Bit `p` of `x` is set.
pub open spec fn bit64(x: u64, p: u64) -> bool {
    (x >> p) & 1u64 == 1u64
}

/// Byte `k` of `x`, counted from the least significant.
pub open spec fn byte64(x: u64, k: u64) -> u64 {
    (x >> ((8 * k) as u64)) & 0xffu64
}

/// The byte that a pair of lanes gives: the low 4 bits of `lo` below the
/// high 4 bits of `hi`.
pub open spec fn pair_nibbles(lo: u8, hi: u8) -> u8 {
    (lo & 0x0fu8) | (hi & 0xf0u8)
}

/// Every lane is 0 or 255.
pub open spec fn is_mask_vector(v: Seq<u8>) -> bool {
    forall|k: int| 0 <= k < 16 ==> #[trigger] v[k] == 0 || v[k] == 255
}

proof fn lemma_put_byte(acc: u64, x: u8, k: u64)
    requires
        k < 8,
        acc >> (8 * k) == 0,
    ensures
        byte64(acc | ((x as u64) << (8 * k)), k) == x as u64,
        k + 1 < 8 ==> (acc | ((x as u64) << (8 * k))) >> (8 * (k + 1)) == 0,
{
    assert(byte64(acc | ((x as u64) << (8 * k)), k) == x as u64) by (bit_vector)
        requires k < 8u64, acc >> (8 * k) == 0u64;
    assert(k + 1 < 8 ==> (acc | ((x as u64) << (8 * k))) >> (8 * (k + 1)) == 0) by (bit_vector)
        requires k < 8u64, acc >> (8 * k) == 0u64;
}

proof fn lemma_keep_byte(acc: u64, x: u8, k: u64, m: u64)
    requires
        m < k < 8,
    ensures
        byte64(acc | ((x as u64) << (8 * k)), m) == byte64(acc, m),
{
    assert(byte64(acc | ((x as u64) << (8 * k)), m) == byte64(acc, m)) by (bit_vector)
        requires m < k, k < 8u64;
}

proof fn lemma_bit_of_byte(x: u64, k: u64, b: u64)
    requires
        k < 8,
        b < 8,
    ensures
        bit64(x, (8 * k + b) as u64) == bit8(byte64(x, k) as u8, b as u8),
{
    let c = b as u8;
    assert(bit64(x, (8 * k + b) as u64) == bit8(byte64(x, k) as u8, c)) by (bit_vector)
        requires k < 8u64, b < 8u64, c == b;
}

proof fn lemma_nibbles_masks(lo: u8, hi: u8, b: u8)
    requires
        lo == 0 || lo == 255,
        hi == 0 || hi == 255,
        b < 8,
    ensures
        bit8(pair_nibbles(lo, hi), b) == (if b < 4 { lo == 255 } else { hi == 255 }),
{
    assert(bit8(pair_nibbles(lo, hi), b) == (if b < 4 { lo == 255 } else { hi == 255 })) by (bit_vector)
        requires lo == 0u8 || lo == 255u8, hi == 0u8 || hi == 255u8, b < 8u8;
}

/// Converts a vector into a u64.
///
/// Returns a value where the first 4 bits are the low 4 bits of the first element,
/// the next 4 bits are the high 4 bits of the second element, and so on.
///
/// For a "bool" vector (where every element is either 255 or 0), the resulting u64
/// will have groups of 4 bits from each element. e.g. the number of trailing zero bits
/// is 4 times the number of trailing zero elements.
fn vector_to_bitset(vector: &[u8; 16]) -> (r: u64)
    ensures
        forall|k: u64| k < 8 ==> #[trigger] byte64(r, k) == pair_nibbles(vector@[2 * k], vector@[2 * k + 1]) as u64,
{
    let mut result: u64 = 0;
    proof {
        assert(0u64 >> 0u64 == 0) by (bit_vector);
    }
    for k in 0..8
        invariant
            forall|m: u64| m < k ==> #[trigger] byte64(result, m) == pair_nibbles(vector@[2 * m], vector@[2 * m + 1]) as u64,
            k < 8 ==> result >> (8 * k) as u64 == 0,
    {
        // The low 4 bits of the first lane of the pair, the high 4 bits of the second.
        let narrowed = (vector[2 * k] & 0x0fu8) | (vector[2 * k + 1] & 0xf0u8);
        let ghost old_result = result;
        let kk = k as u64;
        result = result | ((narrowed as u64) << (8 * kk));
        proof {
            lemma_put_byte(old_result, narrowed, kk);
            assert forall|m: u64| m < k + 1 implies #[trigger] byte64(result, m) == pair_nibbles(vector@[2 * m], vector@[2 * m + 1]) as u64 by {
                if m < kk {
                    lemma_keep_byte(old_result, narrowed, kk, m);
                }
            }
        }
    }
    result
}

/// The bits of the u64 a "bool" vector converts to: 4 per lane.
proof fn lemma_mask_vector_bits(v: Seq<u8>, r: u64, p: u64)
    requires
        v.len() == 16,
        is_mask_vector(v),
        forall|k: u64| k < 8 ==> #[trigger] byte64(r, k) == pair_nibbles(v[2 * k], v[2 * k + 1]) as u64,
        p < 64,
    ensures
        bit64(r, p) == (v[(p / 4) as int] == 255),
{
    let k = p / 8;
    let b = p % 8;
    assert(p == 8 * k + b);
    lemma_bit_of_byte(r, k, b);
    assert(byte64(r, k) == pair_nibbles(v[2 * k], v[2 * k + 1]) as u64);
    assert(v[2 * k] == 0 || v[2 * k] == 255);
    assert(v[2 * k + 1] == 0 || v[2 * k + 1] == 255);
    lemma_nibbles_masks(v[2 * k], v[2 * k + 1], b as u8);
}

/// Finds the first element in a "bool" vector that is set or None if all elements are zero
fn first_element_set(vector: &[u8; 16]) -> (res: Option<u8>)
    requires
        is_mask_vector(vector@),
    ensures
        match res {
            Some(e) => e < 16 && vector@[e as int] == 255 && forall|k: int| 0 <= k < e ==> #[trigger] vector@[k] == 0,
            None => forall|k: int| 0 <= k < 16 ==> #[trigger] vector@[k] == 0,
        },
{
    let bitset = vector_to_bitset(vector);
    let tz = bitset.trailing_zeros();
    let first_bit = tz / 4;
    proof {
        assert forall|k: int| 0 <= k < first_bit && k < 16 implies #[trigger] vector@[k] == 0 by {
            let p = (4 * k) as u64;
            lemma_mask_vector_bits(vector@, bitset, p);
            assert(!bit64(bitset, p));
        }
        if tz < 64 {
            lemma_mask_vector_bits(vector@, bitset, tz as u64);
        }
    }
    if first_bit < 16 {
        Some(first_bit as u8)
    } else {
        None
    }
}

/// Four vectors loaded from 64 bytes: lane `i` of vector `t` holds byte
/// `4 * i + t`.
type Chunk = ([u8; 16], [u8; 16], [u8; 16], [u8; 16]);

/// Byte `p` of the 64 bytes a chunk was loaded from.
pub open spec fn chunk_byte(c: ([u8; 16], [u8; 16], [u8; 16], [u8; 16]), p: int) -> u8 {
    let i = p / 4;
    if p % 4 == 0 {
        c.0@[i]
    } else if p % 4 == 1 {
        c.1@[i]
    } else if p % 4 == 2 {
        c.2@[i]
    } else {
        c.3@[i]
    }
}

/// Loads every fourth byte of `bytes`, starting at byte `t`.
fn load_lanes(bytes: &[u8], t: usize) -> (r: [u8; 16])
    requires
        bytes@.len() == 64,
        t < 4,
    ensures
        forall|i: int| 0 <= i < 16 ==> #[trigger] r@[i] == bytes@[4 * i + t],
{
    let mut r = [0u8; 16];
    for i in 0..16
        invariant
            bytes@.len() == 64,
            t < 4,
            forall|m: int| 0 <= m < i ==> #[trigger] r@[m] == bytes@[4 * m + t],
    {
        r[i] = bytes[4 * i + t];
    }
    r
}

/// Loads 64 bytes into four vectors, "deinterleaved": the first byte into
/// the first lane of the first vector, the second byte into the first lane
/// of the second vector, and so on.
fn load_chunk(bytes: &[u8]) -> (c: Chunk)
    requires
        bytes@.len() == 64,
    ensures
        forall|p: int| 0 <= p < 64 ==> #[trigger] chunk_byte(c, p) == bytes@[p],
{
    let c = (load_lanes(bytes, 0), load_lanes(bytes, 1), load_lanes(bytes, 2), load_lanes(bytes, 3));
    proof {
        assert forall|p: int| 0 <= p < 64 implies #[trigger] chunk_byte(c, p) == bytes@[p] by {
            assert(p == 4 * (p / 4) + p % 4);
        }
    }
    c
}

/// The lane of a shift right and insert: the top `n` bits of `a`, above
/// `b` shifted right by `n`.
pub open spec fn shift_insert(a: u8, b: u8, n: u8) -> u8 {
    (a & !(255u8 >> n)) | (b >> n)
}

/// Shifts each lane of `b` right by `n` and inserts it into the lane of `a`,
/// whose top `n` bits stay.
fn shift_right_insert(a: &[u8; 16], b: &[u8; 16], n: u8) -> (r: [u8; 16])
    requires
        1 <= n <= 7,
    ensures
        forall|k: int| 0 <= k < 16 ==> #[trigger] r@[k] == shift_insert(a@[k], b@[k], n),
{
    let mut r = [0u8; 16];
    for k in 0..16
        invariant
            1 <= n <= 7,
            forall|m: int| 0 <= m < k ==> #[trigger] r@[m] == shift_insert(a@[m], b@[m], n),
    {
        r[k] = (a[k] & !(255u8 >> n)) | (b[k] >> n);
    }
    r
}

/// Packing four "bool" lanes: each bit `c` of the packed lane is the lane
/// `c % 4`.
proof fn lemma_pack_lane(a0: u8, a1: u8, a2: u8, a3: u8, c: u8)
    requires
        a0 == 0 || a0 == 255,
        a1 == 0 || a1 == 255,
        a2 == 0 || a2 == 255,
        a3 == 0 || a3 == 255,
        c < 8,
    ensures
        ({
            let t0 = shift_insert(a1, a0, 1);
            let t1 = shift_insert(a3, a2, 1);
            let t2 = shift_insert(t1, t0, 2);
            let t3 = shift_insert(t2, t2, 4);
            bit8(t3, c) == (if c % 4 == 0 { a0 == 255 } else if c % 4 == 1 { a1 == 255 } else if c % 4 == 2 { a2 == 255 } else { a3 == 255 })
        }),
{
    let t0 = shift_insert(a1, a0, 1);
    let t1 = shift_insert(a3, a2, 1);
    let t2 = shift_insert(t1, t0, 2);
    let t3 = shift_insert(t2, t2, 4);
    assert(bit8(t3, c) == (if c % 4 == 0 { a0 == 255 } else if c % 4 == 1 { a1 == 255 } else if c % 4 == 2 { a2 == 255 } else { a3 == 255 })) by (bit_vector)
        requires
            a0 == 0u8 || a0 == 255u8,
            a1 == 0u8 || a1 == 255u8,
            a2 == 0u8 || a2 == 255u8,
            a3 == 0u8 || a3 == 255u8,
            c < 8u8,
            t0 == (a1 & !(255u8 >> 1u8)) | (a0 >> 1u8),
            t1 == (a3 & !(255u8 >> 1u8)) | (a2 >> 1u8),
            t2 == (t1 & !(255u8 >> 2u8)) | (t0 >> 2u8),
            t3 == (t2 & !(255u8 >> 4u8)) | (t2 >> 4u8);
}

proof fn lemma_nibbles_bits(lo: u8, hi: u8, b: u8)
    requires
        b < 8,
    ensures
        bit8(pair_nibbles(lo, hi), b) == (if b < 4 { bit8(lo, b) } else { bit8(hi, b) }),
{
    assert(bit8(pair_nibbles(lo, hi), b) == (if b < 4 { bit8(lo, b) } else { bit8(hi, b) })) by (bit_vector)
        requires b < 8u8;
}

impl Bytes {
    /// Returns a u64 where each set bit indicates a match in the chunk:
    /// bit `p` for byte `p` of the 64 bytes the chunk was loaded from.
    fn locate_in_chunk(&self, chunk: &Chunk) -> (r: u64)
        ensures
            forall|p: u64| p < 64 ==> #[trigger] bit64(r, p) == self.needle_set().contains(chunk_byte(*chunk, p as int)),
    {
        // Get 4 "bool" vectors indicating if each element in the chunk is a match
        let m0 = self.locale_in_vector(&chunk.0);
        let m1 = self.locale_in_vector(&chunk.1);
        let m2 = self.locale_in_vector(&chunk.2);
        let m3 = self.locale_in_vector(&chunk.3);

        // Pack bits from the 4 vectors into a single vector

        // shift the second vector right by one, insert the top bit from the first vector
        // The top two bits each element of temp0 are from the first and second vector
        let temp0 = shift_right_insert(&m1, &m0, 1);

        // shift the fourth vector right by one, insert the top bit from the third vector
        // The top two bits each element of temp1 are from the third and fourth vector
        let temp1 = shift_right_insert(&m3, &m2, 1);

        // shift temp1 (the top two bits of which are from the third and fourth vector) right by 2,
        // insert the top two bits from temp0 (the top two bits of which are from the first and
        // second vector)
        // The top four bits of each element of temp2 are from the first, second, third, and fourth
        // vector
        let temp2 = shift_right_insert(&temp1, &temp0, 2);

        // duplicate the top 4 bits into the bottom 4 bits of each element
        let temp3 = shift_right_insert(&temp2, &temp2, 4);

        // The top/bottom 4 bits of each element are the same, so converting to a 64 bit bitset
        // takes those 4 bits from each element and places them next to each other
        let r = vector_to_bitset(&temp3);
        proof {
            assert forall|p: u64| p < 64 implies #[trigger] bit64(r, p) == self.needle_set().contains(chunk_byte(*chunk, p as int)) by {
                let k = p / 8;
                let b = p % 8;
                assert(p == 8 * k + b);
                lemma_bit_of_byte(r, k, b);
                assert(byte64(r, k) == pair_nibbles(temp3@[2 * k], temp3@[2 * k + 1]) as u64);
                lemma_nibbles_bits(temp3@[2 * k], temp3@[2 * k + 1], b as u8);
                let i: int = if b < 4 { 2 * k } else { 2 * k + 1 };
                let c: u8 = b as u8;
                assert(bit64(r, p) == bit8(temp3@[i], c));
                lemma_pack_lane(m0@[i], m1@[i], m2@[i], m3@[i], c);
                assert(i == p / 4);
                assert(c % 4 == p % 4);
            }
        }
        r
    }
}

/// Reverses the order of the bits of `x`.
///
/// Calls `u64::reverse_bits`; stated: bit `p` of the result is bit `63 - p`
/// of `x`.
#[verifier::external_body]
fn reverse_bits(x: u64) -> (r: u64)
    ensures
        forall|p: u64| p < 64 ==> #[trigger] bit64(r, p) == bit64(x, (63 - p) as u64),
{
    x.reverse_bits()
}

proof fn lemma_low_mask(x: u64, len: u64, p: u64)
    requires
        len < 64,
        p < 64,
    ensures
        bit64(x & !(u64::MAX << len), p) == (p < len && bit64(x, p)),
{
    assert(bit64(x & !(u64::MAX << len), p) == (p < len && bit64(x, p))) by (bit_vector)
        requires len < 64u64, p < 64u64;
}

proof fn lemma_toggle(x: u64, s: u64, p: u64)
    requires
        s < 64,
        p < 64,
    ensures
        bit64(x ^ (1u64 << s), p) == (if p == s { !bit64(x, p) } else { bit64(x, p) }),
{
    assert(bit64(x ^ (1u64 << s), p) == (if p == s { !bit64(x, p) } else { bit64(x, p) })) by (bit_vector)
        requires s < 64u64, p < 64u64;
}

proof fn lemma_zero_bits(x: u64)
    ensures
        x == 0 <==> forall|p: u64| p < 64 ==> !#[trigger] bit64(x, p),
{
    assert(x == 0 ==> forall|p: u64| p < 64 ==> !#[trigger] bit64(x, p)) by (bit_vector);
    if x != 0 {
        let tz = vstd::std_specs::bits::u64_trailing_zeros(x);
        assert(bit64(x, tz as u64));
    }
}

impl Bytes {
    pub fn iter<'a>(self, haystack: &'a [u8]) -> (it: BytesIter<'a>)
        requires
            haystack@.len() <= isize::MAX,
        ensures
            it.wf(),
            it.needle_set() == self.needle_set(),
            it.whole() == haystack@,
            it.cursor() == 0,
            it.chunk_end() == 0,
    {
        BytesIter::new(self, haystack)
    }
}

/// The positions of the bytes a [`Bytes`] searches for, one at a time.
pub struct BytesIter<'a> {
    /// The bytes to search for
    bytes: Bytes,
    /// The remaining haystack (after the current bitset chunk)
    haystack: &'a [u8],
    /// The current offset (from the start of the original haystack)
    offset: usize,
    /// A reversed bitset of the the current chunk
    ///
    /// e.g. the most significant bit is set if the next byte matches one of the searched bytes
    current_bitset: u64,
    /// The haystack the iteration started with.
    whole: Ghost<Seq<u8>>,
    /// Every position before this one has been handed out or passed over.
    cursor: Ghost<int>,
}

impl<'a> BytesIter<'a> {
    /// The bytes searched for.
    pub closed spec fn needle_set(&self) -> Set<u8> {
        self.bytes.needle_set()
    }

    /// The haystack the iteration started with.
    pub closed spec fn whole(&self) -> Seq<u8> {
        self.whole@
    }

    /// Where the iteration resumes: every match before it has been handed
    /// out.
    pub closed spec fn cursor(&self) -> int {
        self.cursor@
    }

    /// Where the cursor, the end of the part looked at and the haystack lie.
    pub proof fn lemma_bounds(&self)
        requires
            self.wf(),
        ensures
            0 <= self.cursor() <= self.chunk_end() <= self.whole().len() <= isize::MAX,
    {
    }

    /// The positions still to be handed out, in order.
    pub open spec fn remaining(&self) -> Seq<int> {
        positions_in(self.whole(), self.needle_set(), self.cursor())
    }

    /// How far the haystack has been looked at: the end of the current
    /// chunk, where the remaining haystack starts.
    pub closed spec fn chunk_end(&self) -> int {
        self.whole@.len() - self.haystack@.len()
    }

    spec fn is_match(&self, j: int) -> bool {
        self.bytes.needle_set().contains(self.whole@[j])
    }

    pub closed spec fn wf(&self) -> bool {
        let end = self.chunk_end();
        &&& self.whole@.len() <= isize::MAX
        &&& self.haystack@.len() <= self.whole@.len()
        &&& self.haystack@ == self.whole@.subrange(end, self.whole@.len() as int)
        &&& 0 <= self.cursor@ <= end
        &&& self.offset <= self.whole@.len() + 64
        &&& forall|j: int| self.cursor@ <= j < end && j < self.offset ==> !self.bytes.needle_set().contains(#[trigger] self.whole@[j])
        &&& if self.current_bitset == 0 {
            &&& (self.haystack@.len() == 0 || self.offset == end)
            &&& forall|j: int| self.cursor@ <= j < end ==> !self.bytes.needle_set().contains(#[trigger] self.whole@[j])
        } else {
            &&& self.offset <= end <= self.offset + 64
            &&& (self.haystack@.len() > 0 ==> end == self.offset + 64)
            &&& forall|k: u64| k < 64 ==> #[trigger] bit64(self.current_bitset, (63 - k) as u64) == (
                self.offset + k < end && self.cursor@ <= self.offset + k && self.is_match(self.offset + k))
        }
    }

    fn new(bytes: Bytes, haystack: &'a [u8]) -> (it: Self)
        requires
            haystack@.len() <= isize::MAX,
        ensures
            it.wf(),
            it.needle_set() == bytes.needle_set(),
            it.whole() == haystack@,
            it.cursor() == 0,
            it.chunk_end() == 0,
    {
        proof {
            assert(haystack@.subrange(0, haystack@.len() as int) =~= haystack@);
        }
        Self {
            bytes,
            haystack,
            offset: 0,
            current_bitset: 0,
            whole: Ghost(haystack@),
            cursor: Ghost(0),
        }
    }

    /// Finds the next chunk with a match, or takes the last, partial chunk.
    fn fill_bitset(&mut self)
        requires
            old(self).wf(),
            old(self).current_bitset == 0,
        ensures
            final(self).wf(),
            final(self).bytes == old(self).bytes,
            final(self).whole@ == old(self).whole@,
            final(self).cursor@ == old(self).cursor@,
            final(self).current_bitset == 0 ==> forall|j: int|
                final(self).cursor@ <= j < final(self).whole@.len() ==> !final(self).bytes.needle_set().contains(#[trigger] final(self).whole@[j]),
            final(self).current_bitset == 0 ==> final(self).haystack@.len() == 0,
            final(self).chunk_end() >= old(self).chunk_end(),
            final(self).haystack@ == old(self).haystack@.subrange(
                final(self).chunk_end() - old(self).chunk_end(), old(self).haystack@.len() as int),
            forall|p: int| #[trigger] final(self).pending(p) == old(self).pending(p),
    {
        while self.haystack.len() >= 64
            invariant
                self.wf(),
                self.bytes == old(self).bytes,
                self.whole@ == old(self).whole@,
                self.cursor@ == old(self).cursor@,
                self.current_bitset == 0,
                self.chunk_end() >= old(self).chunk_end(),
                old(self).wf(),
            decreases self.haystack@.len(),
        {
            let ghost start = self.chunk_end();
            let ghost prev = *self;
            let (chunk, rest) = self.haystack.split_at(64);
            proof {
                assert(self.offset == start);
                assert forall|p: int| 0 <= p < 64 implies #[trigger] chunk@[p] == self.whole@[start + p] by {
                    assert(self.haystack@[p] == self.whole@[start + p]);
                }
                assert(rest@ =~= self.whole@.subrange(start + 64, self.whole@.len() as int));
            }
            self.haystack = rest;
            let chunk = load_chunk(chunk);
            let bitset = self.bytes.locate_in_chunk(&chunk);
            proof {
                assert(self.chunk_end() == start + 64);
                assert forall|p: u64| p < 64 implies #[trigger] bit64(bitset, p) == self.is_match(start + p) by {
                    assert(chunk_byte(chunk, p as int) == self.whole@[start + p]);
                }
            }
            if bitset != 0 {
                // aarch64 doesn't have a count trailing zeros instruction, so
                // reverse the bits so we use leading_zeros instead
                let reversed = reverse_bits(bitset);
                proof {
                    assert forall|k: u64| k < 64 implies #[trigger] bit64(reversed, (63 - k) as u64) == bit64(bitset, k) by {
                        let q = (63 - k) as u64;
                        assert((63 - q) as u64 == k);
                    }
                    lemma_zero_bits(bitset);
                    lemma_zero_bits(reversed);
                    if reversed == 0 {
                        assert forall|p: u64| p < 64 implies !#[trigger] bit64(bitset, p) by {
                            assert(!bit64(reversed, (63 - p) as u64));
                        }
                    }
                    assert forall|j: int| self.cursor@ <= j < self.chunk_end() && j < self.offset implies !self.bytes.needle_set().contains(#[trigger] self.whole@[j]) by {
                        assert(!prev.bytes.needle_set().contains(prev.whole@[j]));
                    }
                }
                self.current_bitset = reversed;
                proof {
                    self.lemma_keeps_pending(*old(self));
                    assert(self.haystack@ =~= old(self).haystack@.subrange(self.chunk_end() - old(self).chunk_end(), old(self).haystack@.len() as int));
                }
                return;
            }
            proof {
                lemma_zero_bits(bitset);
                assert forall|j: int| self.cursor@ <= j < self.chunk_end() implies !self.bytes.needle_set().contains(#[trigger] self.whole@[j]) by {
                    if j >= start {
                        assert(!bit64(bitset, (j - start) as u64));
                    } else {
                        assert(!prev.bytes.needle_set().contains(prev.whole@[j]));
                    }
                }
            }
            self.offset += 64;
        }
        let len = self.haystack.len();
        let ghost start = self.chunk_end();
        let ghost prev = *self;
        let mut fake_chunk = [0u8; 64];
        for k in 0..len
            invariant
                len == self.haystack@.len() < 64,
                forall|m: int| 0 <= m < k ==> #[trigger] fake_chunk@[m] == self.haystack@[m],
        {
            fake_chunk[k] = self.haystack[k];
        }
        let chunk = load_chunk(&fake_chunk);
        let bitset = self.bytes.locate_in_chunk(&chunk);
        let mask = !(u64::MAX << len as u64);
        let masked = bitset & mask;
        // aarch64 doesn't have a count trailing zeros instruction, so
        // reverse the bits so we use leading_zeros instead
        let reversed = reverse_bits(masked);
        proof {
            assert forall|p: u64| p < 64 implies #[trigger] bit64(masked, p) == (p < len && self.is_match(start + p)) by {
                lemma_low_mask(bitset, len as u64, p);
                if p < len {
                    assert(chunk_byte(chunk, p as int) == fake_chunk@[p as int]);
                    assert(self.haystack@[p as int] == self.whole@[start + p]);
                }
            }
            assert forall|k: u64| k < 64 implies #[trigger] bit64(reversed, (63 - k) as u64) == bit64(masked, k) by {
                let q = (63 - k) as u64;
                assert((63 - q) as u64 == k);
            }
            lemma_zero_bits(reversed);
        }
        self.current_bitset = reversed;
        self.haystack = &[];
        proof {
            assert(self.haystack@.len() == 0);
            assert(self.haystack@ =~= self.whole@.subrange(self.whole@.len() as int, self.whole@.len() as int));
            assert(self.chunk_end() == start + len);
            assert forall|j: int| self.cursor@ <= j < start implies !self.bytes.needle_set().contains(#[trigger] self.whole@[j]) by {
                assert(!prev.bytes.needle_set().contains(prev.whole@[j]));
            }
            if self.current_bitset == 0 {
                assert forall|j: int| self.cursor@ <= j < self.whole@.len() implies !self.bytes.needle_set().contains(#[trigger] self.whole@[j]) by {
                    if j >= start {
                        let p = (j - start) as u64;
                        assert(!bit64(reversed, (63 - p) as u64));
                    }
                }
            } else {
                assert(len > 0);
                assert(self.offset == start);
            }
            self.lemma_keeps_pending(*old(self));
                    assert(self.haystack@ =~= old(self).haystack@.subrange(self.chunk_end() - old(self).chunk_end(), old(self).haystack@.len() as int));
        }
    }

    /// Whether position `p` is still to be handed out, by the iterator's
    /// own state: marked in the current bitset, or a match in the part of
    /// the haystack not yet looked at.
    pub closed spec fn pending(&self, p: int) -> bool {
        ||| exists|k: u64| k < 64 && p == self.offset + k && #[trigger] bit64(self.current_bitset, (63 - k) as u64)
        ||| (self.chunk_end() <= p < self.whole@.len() && self.is_match(p))
    }

    /// The positions the state marks as pending are exactly those left to
    /// hand out.
    pub proof fn lemma_pending_is_remaining(&self)
        requires
            self.wf(),
        ensures
            forall|p: int| #[trigger] self.pending(p) <==> self.remaining().contains(p),
    {
        lemma_positions_exact(self.whole@, self.needle_set(), self.cursor@);
        lemma_zero_bits(self.current_bitset);
        assert forall|p: int| #[trigger] self.pending(p) <==> self.remaining().contains(p) by {
            if self.pending(p) {
                if exists|k: u64| k < 64 && p == self.offset + k && #[trigger] bit64(self.current_bitset, (63 - k) as u64) {
                    let k = choose|k: u64| k < 64 && p == self.offset + k && #[trigger] bit64(self.current_bitset, (63 - k) as u64);
                    assert(self.current_bitset != 0);
                }
                assert(self.needle_set().contains(self.whole()[p]));
            }
            if self.remaining().contains(p) {
                let i = choose|i: int| 0 <= i < self.remaining().len() && self.remaining()[i] == p;
                assert(self.cursor@ <= p < self.whole@.len());
                assert(self.needle_set().contains(self.whole@[p]));
                if p < self.chunk_end() {
                    if self.current_bitset == 0 {
                        assert(!self.bytes.needle_set().contains(self.whole@[p]));
                    } else {
                        assert(!(p < self.offset)) by {
                            if p < self.offset {
                                assert(!self.bytes.needle_set().contains(self.whole@[p]));
                            }
                        }
                        let k = (p - self.offset) as u64;
                        assert(bit64(self.current_bitset, (63 - k) as u64));
                    }
                }
            }
        }
    }

    /// Refilling keeps what is pending, when the set, the haystack and the
    /// cursor stay.
    proof fn lemma_keeps_pending(&self, before: Self)
        requires
            self.wf(),
            before.wf(),
            self.bytes == before.bytes,
            self.whole@ == before.whole@,
            self.cursor@ == before.cursor@,
        ensures
            forall|p: int| #[trigger] self.pending(p) == before.pending(p),
    {
        self.lemma_pending_is_remaining();
        before.lemma_pending_is_remaining();
        assert(self.remaining() == before.remaining());
    }

    /// The position of the next byte searched for; `None` once there is none.
    pub fn next(&mut self) -> (res: Option<usize>)
        requires
            old(self).wf(),
        ensures
            final(self).wf(),
            final(self).needle_set() == old(self).needle_set(),
            final(self).whole() == old(self).whole(),
            first_in_from(old(self).whole(), old(self).needle_set(), old(self).cursor(), res),
            match res {
                Some(r) => {
                    &&& final(self).cursor() == r + 1
                    &&& old(self).remaining() == seq![r as int].add(final(self).remaining())
                },
                None => {
                    &&& final(self).cursor() == old(self).cursor()
                    &&& old(self).remaining() == Seq::<int>::empty()
                    &&& final(self).remaining() == Seq::<int>::empty()
                },
            },
    {
        proof {
            assert(old(self).cursor@ <= old(self).chunk_end());
        }
        let mut first_bit = self.current_bitset.leading_zeros();
        proof {
            lemma_leading_zeros(self.current_bitset);
        }
        if first_bit == 64 {
            self.fill_bitset();
            first_bit = self.current_bitset.leading_zeros();
            proof {
                lemma_leading_zeros(self.current_bitset);
            }
            if first_bit == 64 {
                proof {
                    lemma_positions_step(old(self).whole(), old(self).needle_set(), old(self).cursor(), None);
                }
                return None;
            }
        }
        let k = first_bit as u64;
        let ghost before = *self;
        proof {
            assert(before.whole@ == old(self).whole@);
            assert(before.bytes == old(self).bytes);
            assert(before.cursor@ == old(self).cursor@);
            assert forall|j: int| old(self).cursor() <= j < before.offset + k implies
                !old(self).needle_set().contains(#[trigger] old(self).whole()[j]) by {
                if j >= before.offset {
                    let kk = (j - before.offset) as u64;
                    assert(!bit64(before.current_bitset, (63 - kk) as u64));
                }
                assert(!before.is_match(j));
            }
            assert(bit64(before.current_bitset, (63 - k) as u64));
        }
        // toggle the highest bit
        self.current_bitset ^= 1u64 << (63 - k);
        let result = self.offset + first_bit as usize;
        proof {
            self.cursor = Ghost(result + 1);
            assert forall|kk: u64| kk < 64 implies #[trigger] bit64(self.current_bitset, (63 - kk) as u64) == (
                bit64(before.current_bitset, (63 - kk) as u64) && kk != k) by {
                lemma_toggle(before.current_bitset, (63 - k) as u64, (63 - kk) as u64);
            }
        }
        if self.current_bitset == 0 {
            self.offset += 64;
            proof {
                lemma_zero_bits(before.current_bitset ^ (1u64 << (63 - k)));
                assert forall|j: int| self.cursor@ <= j < self.chunk_end() implies !self.bytes.needle_set().contains(#[trigger] self.whole@[j]) by {
                    let kk = (j - before.offset) as u64;
                    assert(!bit64(self.current_bitset, (63 - kk) as u64));
                }
            }
        }
        proof {
            lemma_positions_step(old(self).whole(), old(self).needle_set(), old(self).cursor(), Some(result));
        }
        Some(result)
    }
}

/// The number of set bits of `x`.
pub open spec fn popcount(x: u64) -> nat {
    count_where(|p: int| bit64(x, p as u64), 0, 64)
}

/// Counts the set bits of `x`.
///
/// Calls `u64::count_ones`; stated: the result is the number of set bits.
#[verifier::external_body]
fn count_ones(x: u64) -> (r: u32)
    ensures
        r == popcount(x),
{
    x.count_ones()
}

/// The set bits of a 64-bit mask of a stretch at `base` count the positions
/// it marks.
proof fn lemma_bits_count(x: u64, q: spec_fn(int) -> bool, base: int)
    requires
        forall|p: u64| p < 64 ==> #[trigger] bit64(x, p) == q(base + p),
    ensures
        popcount(x) == count_where(q, base, base + 64),
{
    let bits = |p: int| bit64(x, p as u64);
    assert forall|j: int| 0 <= j < 64 implies #[trigger] bits(j) == q(j + base) by {
        assert(bit64(x, j as u64) == q(base + (j as u64)));
    }
    lemma_count_shift(bits, q, 0, 64, base);
}

impl<'a> BytesIter<'a> {
    /// The matches the current bitset still holds are those between the
    /// cursor and the end of the chunk.
    proof fn lemma_pending_count(&self)
        requires
            self.wf(),
        ensures
            popcount(self.current_bitset) == count_where(in_set_at(self.whole@, self.needle_set()), self.cursor@, self.chunk_end()),
    {
        let m = in_set_at(self.whole@, self.needle_set());
        let end = self.chunk_end();
        let c = self.cursor@;
        let x = self.current_bitset;
        if x == 0 {
            lemma_zero_bits(x);
            lemma_count_none(|p: int| bit64(x, p as u64), 0, 64);
            assert forall|j: int| c <= j < end implies !#[trigger] m(j) by {
                assert(!self.bytes.needle_set().contains(self.whole@[j]));
            }
            lemma_count_none(m, c, end);
        } else {
            let off = self.offset as int;
            let bits = |p: int| bit64(x, p as u64);
            let q = |j: int| j < end && c <= j && m(j);
            lemma_count_reverse(bits, 0, 64);
            let rev = |k: int| bits(0 + 64 - 1 - k);
            assert forall|k: int| 0 <= k < 64 implies #[trigger] rev(k) == q(k + off) by {
                let kk = k as u64;
                assert(bit64(x, (63 - kk) as u64) == (off + kk < end && c <= off + kk && self.is_match(off + kk)));
            }
            lemma_count_shift(rev, q, 0, 64, off);
            lemma_count_split(q, off, end, off + 64);
            lemma_count_none(q, end, off + 64);
            if c >= off {
                lemma_count_split(q, off, c, end);
                lemma_count_none(q, off, c);
                assert forall|j: int| c <= j < end implies #[trigger] q(j) == m(j + 0) by {}
                lemma_count_shift(q, m, c, end, 0);
            } else {
                lemma_count_split(m, c, off, end);
                assert forall|j: int| c <= j < off implies !#[trigger] m(j) by {
                    assert(!self.bytes.needle_set().contains(self.whole@[j]));
                }
                lemma_count_none(m, c, off);
                assert forall|j: int| off <= j < end implies #[trigger] q(j) == m(j + 0) by {}
                lemma_count_shift(q, m, off, end, 0);
            }
        }
    }

    /// A lower bound on the number of positions left to hand out, and an
    /// upper one when it fits.
    pub fn size_hint(&self) -> (r: (usize, Option<usize>))
        requires
            self.wf(),
        ensures
            r.0 == count_where(in_set_at(self.whole(), self.needle_set()), self.cursor(), self.chunk_end()),
            0 <= self.cursor() <= self.chunk_end() <= self.whole().len() <= isize::MAX,
            r.1 is Some,
            r.1->0 == r.0 + (self.whole().len() - self.chunk_end()),
            r.0 <= self.remaining().len() <= r.0 + (self.whole().len() - self.chunk_end()),
    {
        let min = count_ones(self.current_bitset) as usize;
        proof {
            self.lemma_pending_count();
            let m = in_set_at(self.whole@, self.needle_set());
            lemma_positions_count(self.whole@, self.needle_set(), self.cursor@);
            lemma_count_split(m, self.cursor@, self.chunk_end(), self.whole@.len() as int);
            lemma_count_bound(m, self.chunk_end(), self.whole@.len() as int);
            lemma_count_bound(m, self.cursor@, self.chunk_end());
        }
        let max = min.checked_add(self.haystack.len());
        (min, max)
    }

    /// The number of positions left to hand out, counted a chunk at a time
    /// without handing them out.
    pub fn count(self) -> (n: usize)
        requires
            self.wf(),
        ensures
            n == self.remaining().len(),
    {
        let ghost m = in_set_at(self.whole@, self.needle_set());
        let ghost c = self.cursor@;
        let ghost whole = self.whole@;
        let mut count = count_ones(self.current_bitset) as usize;
        proof {
            self.lemma_pending_count();
            lemma_positions_count(whole, self.needle_set(), c);
            lemma_count_bound(m, c, self.chunk_end());
        }
        let ghost start = self.chunk_end();
        let haystack = self.haystack;
        let mut pos: usize = 0;
        while haystack.len() - pos >= 64
            invariant
                haystack@ == whole.subrange(start, whole.len() as int),
                0 <= c <= start <= whole.len() <= isize::MAX,
                pos <= haystack@.len(),
                m == in_set_at(whole, self.needle_set()),
                count == count_where(m, c, start + pos),
            decreases haystack@.len() - pos,
        {
            let chunk = load_chunk(&haystack[pos..pos + 64]);
            let result = self.bytes.locate_in_chunk(&chunk);
            proof {
                assert forall|p: u64| p < 64 implies #[trigger] bit64(result, p) == m(start + pos + p) by {
                    assert(chunk_byte(chunk, p as int) == haystack@[pos + p]);
                }
                lemma_bits_count(result, m, start + pos);
                lemma_count_split(m, c, start + pos, start + pos + 64);
                lemma_count_bound(m, c, start + pos + 64);
            }
            count += count_ones(result) as usize;
            pos += 64;
        }
        let remaining = &haystack[pos..haystack.len()];
        let len = remaining.len();
        let mut fake_chunk = [0u8; 64];
        for k in 0..len
            invariant
                len == remaining@.len() < 64,
                forall|j: int| 0 <= j < k ==> #[trigger] fake_chunk@[j] == remaining@[j],
        {
            fake_chunk[k] = remaining[k];
        }
        let chunk = load_chunk(&fake_chunk);
        let result = self.bytes.locate_in_chunk(&chunk);
        let mask = !(u64::MAX << len as u64);
        let masked = result & mask;
        proof {
            let base = start + pos;
            let q = |j: int| j < base + len && m(j);
            assert forall|p: u64| p < 64 implies #[trigger] bit64(masked, p) == q(base + p) by {
                lemma_low_mask(result, len as u64, p);
                if p < len {
                    assert(chunk_byte(chunk, p as int) == fake_chunk@[p as int]);
                    assert(remaining@[p as int] == whole[base + p]);
                }
            }
            lemma_bits_count(masked, q, base);
            lemma_count_split(q, base, base + len, base + 64);
            lemma_count_none(q, base + len, base + 64);
            assert forall|j: int| base <= j < base + len implies #[trigger] q(j) == m(j + 0) by {}
            lemma_count_shift(q, m, base, base + len, 0);
            assert(base + len == whole.len());
            lemma_count_split(m, c, base, whole.len() as int);
            lemma_count_bound(m, c, whole.len() as int);
        }
        count += count_ones(masked) as usize;
        count
    }
}

/// What the leading zeros of `x` tell of its bits, counted from the top.
proof fn lemma_leading_zeros(x: u64)
    ensures
        0 <= vstd::std_specs::bits::u64_leading_zeros(x) <= 64,
        x == 0 <==> vstd::std_specs::bits::u64_leading_zeros(x) == 64,
        vstd::std_specs::bits::u64_leading_zeros(x) < 64 ==> bit64(x, (63 - vstd::std_specs::bits::u64_leading_zeros(x)) as u64),
        forall|k: u64| k < vstd::std_specs::bits::u64_leading_zeros(x) ==> !#[trigger] bit64(x, (63 - k) as u64),
{
    let lz = vstd::std_specs::bits::u64_leading_zeros(x);
    vstd::std_specs::bits::axiom_u64_leading_zeros(x);
    if lz < 64 {
        let s = (63 - lz) as u64;
        assert((x >> s) & 1u64 != 0u64 ==> (x >> s) & 1u64 == 1u64) by (bit_vector);
    }
    assert forall|k: u64| k < lz implies !#[trigger] bit64(x, (63 - k) as u64) by {
        let j = (63 - k) as u64;
        assert((x >> j) & 1u64 == 0u64);
    }
}

} // verus!
