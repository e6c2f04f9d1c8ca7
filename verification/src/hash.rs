//! Hashing primitives: an FxHash-style hasher and an identity hasher.
//!
//! Neither hasher is DoS-resistant: do not route attacker-controlled keys
//! through them without upstream rate-limiting.
use vstd::prelude::*;
use core::hash::Hasher;

verus! {

/// Multiplier of the FxHash mixing step.
pub const SEED: u64 = 0x517c_c1b7_2722_0a95;

/// Rotation of the FxHash mixing step.
pub const ROTATE: u32 = 5;

/// `h` rotated left by `ROTATE` bits.
pub open spec fn rotl5(h: u64) -> u64 {
    (h << 5u64) | (h >> 59u64)
}

/// One FxHash mixing step: rotate, xor in the word, multiply by the seed.
pub open spec fn fx_mix(h: u64, word: u64) -> u64 {
    (rotl5(h) ^ word).wrapping_mul(SEED)
}

/// Mixing in each byte, in order.
pub open spec fn fx_bytes(h: u64, bytes: Seq<u8>) -> u64
    decreases bytes.len(),
{
    if bytes.len() == 0 {
        h
    } else {
        fx_bytes(fx_mix(h, bytes[0] as u64), bytes.drop_first())
    }
}

/// The little-endian value of some bytes.
pub open spec fn le_value(bytes: Seq<u8>) -> nat
    decreases bytes.len(),
{
    if bytes.len() == 0 {
        0
    } else {
        bytes[0] as nat + 256 * le_value(bytes.drop_first())
    }
}

/// The big-endian value of some bytes.
pub open spec fn be_value(bytes: Seq<u8>) -> nat
    decreases bytes.len(),
{
    if bytes.len() == 0 {
        0
    } else {
        be_value(bytes.drop_last()) * 256 + bytes.last() as nat
    }
}

/// Whether `h1` is a state that `FxHasher::write` can reach from `h0` on
/// `bytes`: 8-byte words while 8 bytes are left, then one 4-byte word if 4
/// are left, then single bytes. Words are read in the machine's byte order,
/// little- or big-endian.
pub open spec fn fx_write_reaches(h0: u64, bytes: Seq<u8>, h1: u64) -> bool
    decreases bytes.len(),
{
    if bytes.len() >= 8 {
        let w = bytes.take(8);
        fx_write_reaches(fx_mix(h0, le_value(w) as u64), bytes.skip(8), h1) || fx_write_reaches(
            fx_mix(h0, be_value(w) as u64),
            bytes.skip(8),
            h1,
        )
    } else if bytes.len() >= 4 {
        let w = bytes.take(4);
        fx_write_reaches(fx_mix(h0, le_value(w) as u64), bytes.skip(4), h1) || fx_write_reaches(
            fx_mix(h0, be_value(w) as u64),
            bytes.skip(4),
            h1,
        )
    } else {
        h1 == fx_bytes(h0, bytes)
    }
}

/// A 64-bit word from eight bytes in the machine's byte order.
///
/// Trusted: calls `u64::from_ne_bytes`, which std documents as reading the
/// bytes in the target's native endianness, so the result is their
/// little-endian or their big-endian value. Which one is not stated.
#[verifier::external_body]
fn u64_from_ne_bytes(bytes: &[u8]) -> (w: u64)
    requires
        bytes@.len() == 8,
    ensures
        w == le_value(bytes@) || w == be_value(bytes@),
{
    u64::from_ne_bytes(bytes.try_into().unwrap())
}

/// A 32-bit word from four bytes in the machine's byte order.
///
/// Trusted: calls `u32::from_ne_bytes`, which std documents as reading the
/// bytes in the target's native endianness, so the result is their
/// little-endian or their big-endian value. Which one is not stated.
#[verifier::external_body]
fn u32_from_ne_bytes(bytes: &[u8]) -> (w: u32)
    requires
        bytes@.len() == 4,
    ensures
        w == le_value(bytes@) || w == be_value(bytes@),
{
    u32::from_ne_bytes(bytes.try_into().unwrap())
}

/// `h` rotated left by `ROTATE` bits.
fn rotate_left_5(h: u64) -> (r: u64)
    ensures
        r == rotl5(h),
{
    (h << 5u64) | (h >> 59u64)
}

/// Fast non-cryptographic hasher, FxHash-style.
#[derive(Clone)]
pub struct FxHasher {
    hash: u64,
}

impl View for FxHasher {
    type V = u64;

    /// The running hash.
    closed spec fn view(&self) -> u64 {
        self.hash
    }
}

impl Default for FxHasher {
    /// A hasher whose running hash is 0.
    fn default() -> (h: Self)
        ensures
            h@ == 0,
    {
        FxHasher { hash: 0 }
    }
}

impl FxHasher {
    /// The copy of `bytes[from..from + n]`.
    fn chunk(bytes: &[u8], from: usize, n: usize) -> (c: Vec<u8>)
        requires
            from + n <= bytes@.len(),
        ensures
            c@ == bytes@.subrange(from as int, from + n),
    {
        let total = bytes.len();
        let mut c: Vec<u8> = Vec::new();
        let mut k: usize = 0;
        while k < n
            invariant
                from + n <= bytes@.len(),
                bytes@.len() == total,
                0 <= k <= n,
                c@ == bytes@.subrange(from as int, from + k),
            decreases n - k,
        {
            c.push(bytes[from + k]);
            k = k + 1;
            assert(c@ =~= bytes@.subrange(from as int, from + k));
        }
        c
    }
}

impl Hasher for FxHasher {
    fn finish(&self) -> (h: u64)
        ensures
            h == self@,
    {
        self.hash
    }

    fn write(&mut self, bytes: &[u8])
        ensures
            fx_write_reaches(old(self)@, bytes@, final(self)@),
    {
        let ghost h0 = self.hash;
        let mut i: usize = 0;
        assert(bytes@.skip(0) =~= bytes@);
        while bytes.len() - i >= 8
            invariant
                i <= bytes@.len(),
                forall|h1: u64|
                    #[trigger] fx_write_reaches(self.hash, bytes@.skip(i as int), h1)
                        ==> fx_write_reaches(h0, bytes@, h1),
            decreases bytes@.len() - i,
        {
            let c = FxHasher::chunk(bytes, i, 8);
            let word = u64_from_ne_bytes(c.as_slice());
            let ghost before = self.hash;
            self.hash = (rotate_left_5(self.hash) ^ word).wrapping_mul(SEED);
            proof {
                let rest = bytes@.skip(i as int);
                assert(rest.take(8) =~= c@);
                assert(rest.skip(8) =~= bytes@.skip(i + 8));
                assert forall|h1: u64| #[trigger]
                    fx_write_reaches(self.hash, bytes@.skip(i + 8), h1) implies fx_write_reaches(
                    h0,
                    bytes@,
                    h1,
                ) by {
                    assert(fx_write_reaches(before, rest, h1));
                }
            }
            i = i + 8;
        }
        if bytes.len() - i >= 4 {
            let c = FxHasher::chunk(bytes, i, 4);
            let word = u32_from_ne_bytes(c.as_slice());
            let ghost before = self.hash;
            self.hash = (rotate_left_5(self.hash) ^ word as u64).wrapping_mul(SEED);
            proof {
                let rest = bytes@.skip(i as int);
                assert(rest.take(4) =~= c@);
                assert(rest.skip(4) =~= bytes@.skip(i + 4));
                assert forall|h1: u64| #[trigger]
                    fx_write_reaches(self.hash, bytes@.skip(i + 4), h1) implies fx_write_reaches(
                    h0,
                    bytes@,
                    h1,
                ) by {
                    assert(fx_write_reaches(before, rest, h1));
                }
            }
            i = i + 4;
        }
        let ghost hb = self.hash;
        let ghost ib = i as int;
        while i < bytes.len()
            invariant
                ib <= i <= bytes@.len(),
                bytes@.len() - ib < 4,
                forall|h1: u64|
                    #[trigger] fx_write_reaches(hb, bytes@.skip(ib), h1) ==> fx_write_reaches(
                        h0,
                        bytes@,
                        h1,
                    ),
                fx_bytes(self.hash, bytes@.skip(i as int)) == fx_bytes(hb, bytes@.skip(ib)),
            decreases bytes@.len() - i,
        {
            let ghost before = self.hash;
            self.hash = (rotate_left_5(self.hash) ^ bytes[i] as u64).wrapping_mul(SEED);
            proof {
                let rest = bytes@.skip(i as int);
                assert(rest.drop_first() =~= bytes@.skip(i + 1));
                assert(rest[0] == bytes@[i as int]);
            }
            i = i + 1;
        }
        proof {
            assert(bytes@.skip(i as int) =~= Seq::<u8>::empty());
            assert(fx_write_reaches(hb, bytes@.skip(ib), self.hash));
        }
    }

    fn write_u64(&mut self, n: u64)
        ensures
            final(self)@ == fx_mix(old(self)@, n),
    {
        self.hash = (rotate_left_5(self.hash) ^ n).wrapping_mul(SEED);
    }
}

/// `n` broadcast into all eight byte lanes of a word.
pub open spec fn spread_u8(n: u8) -> u128 {
    ((n as u64).wrapping_mul(0x0101_0101_0101_0101u64)) as u128
}

/// `n` broadcast into all four 16-bit lanes of a word.
pub open spec fn spread_u16(n: u16) -> u128 {
    ((n as u64).wrapping_mul(0x0001_0001_0001_0001u64)) as u128
}

/// `n` in both 32-bit halves of a word.
pub open spec fn spread_u32(n: u32) -> u128 {
    (((n as u64) << 32u64) | (n as u64)) as u128
}

/// The two 64-bit halves of `n` folded together by xor.
pub open spec fn fold_u128(n: u128) -> u128 {
    (((n >> 64u128) as u64) ^ (n as u64)) as u128
}

/// Identity hasher backed by `u128` storage.
///
/// Each typed `write_*` spreads its input across the full 64-bit hash space
/// at write time; `finish` then truncates the storage to `u64`.
#[derive(Clone, Debug)]
pub struct IdHasher(u128);

impl View for IdHasher {
    type V = u128;

    /// The stored value.
    closed spec fn view(&self) -> u128 {
        self.0
    }
}

impl Default for IdHasher {
    /// A hasher that stores 0.
    fn default() -> (h: Self)
        ensures
            h@ == 0,
    {
        IdHasher(0)
    }
}

impl Hasher for IdHasher {
    /// The stored value truncated to `u64`.
    fn finish(&self) -> (h: u64)
        ensures
            h == self@ as u64,
    {
        self.0 as u64
    }

    fn write_u8(&mut self, n: u8)
        ensures
            final(self)@ == spread_u8(n),
    {
        self.0 = ((n as u64).wrapping_mul(0x0101_0101_0101_0101u64)) as u128;
    }

    fn write_u16(&mut self, n: u16)
        ensures
            final(self)@ == spread_u16(n),
    {
        self.0 = ((n as u64).wrapping_mul(0x0001_0001_0001_0001u64)) as u128;
    }

    fn write_u32(&mut self, n: u32)
        ensures
            final(self)@ == spread_u32(n),
    {
        let x = n as u64;
        self.0 = ((x << 32u64) | x) as u128;
    }

    fn write_u64(&mut self, n: u64)
        ensures
            final(self)@ == n as u128,
    {
        self.0 = n as u128;
    }

    fn write_u128(&mut self, n: u128)
        ensures
            final(self)@ == fold_u128(n),
    {
        let hi = (n >> 64u128) as u64;
        let lo = n as u64;
        self.0 = (hi ^ lo) as u128;
    }

    /// The spread of the platform's word width.
    fn write_usize(&mut self, n: usize)
        ensures
            usize::BITS == 64 ==> final(self)@ == n as u128,
            usize::BITS == 32 ==> final(self)@ == spread_u32(n as u32),
    {
        if usize::BITS == 64 {
            self.write_u64(n as u64);
        } else if usize::BITS == 32 {
            self.write_u32(n as u32);
        } else {
            self.write_u16(n as u16);
        }
    }

    fn write_i8(&mut self, n: i8)
        ensures
            final(self)@ == spread_u8(n as u8),
    {
        self.write_u8(n as u8);
    }

    fn write_i16(&mut self, n: i16)
        ensures
            final(self)@ == spread_u16(n as u16),
    {
        self.write_u16(n as u16);
    }

    fn write_i32(&mut self, n: i32)
        ensures
            final(self)@ == spread_u32(n as u32),
    {
        self.write_u32(n as u32);
    }

    fn write_i64(&mut self, n: i64)
        ensures
            final(self)@ == (n as u64) as u128,
    {
        self.write_u64(n as u64);
    }

    fn write_i128(&mut self, n: i128)
        ensures
            final(self)@ == fold_u128(n as u128),
    {
        self.write_u128(n as u128);
    }

    /// The spread of the platform's word width.
    fn write_isize(&mut self, n: isize)
        ensures
            usize::BITS == 64 ==> final(self)@ == (n as u64) as u128,
            usize::BITS == 32 ==> final(self)@ == spread_u32(n as u32),
    {
        if usize::BITS == 64 {
            self.write_u64(n as u64);
        } else if usize::BITS == 32 {
            self.write_u32(n as u32);
        } else {
            self.write_u16(n as u16);
        }
    }

    /// Fold bytes in for `Hash` impls that bypass the typed writers: rotate
    /// the storage left by 5 bits and xor in each byte.
    fn write(&mut self, bytes: &[u8])
        ensures
            final(self)@ == id_fold_bytes(old(self)@, bytes@),
    {
        let mut i: usize = 0;
        let ghost start = self.0;
        assert(bytes@.take(0) =~= Seq::<u8>::empty());
        while i < bytes.len()
            invariant
                i <= bytes@.len(),
                self.0 == id_fold_bytes(start, bytes@.take(i as int)),
            decreases bytes@.len() - i,
        {
            let ghost prev = bytes@.take(i as int);
            self.0 = ((self.0 << 5u128) | (self.0 >> 123u128)) ^ (bytes[i] as u128);
            proof {
                lemma_id_fold_push(start, prev, bytes@[i as int]);
                assert(bytes@.take(i + 1) =~= prev.push(bytes@[i as int]));
            }
            i = i + 1;
        }
        assert(bytes@.take(bytes@.len() as int) =~= bytes@);
    }
}

/// One step of `IdHasher::write`: rotate left by 5 bits, xor in the byte.
pub open spec fn id_step(h: u128, b: u8) -> u128 {
    ((h << 5u128) | (h >> 123u128)) ^ (b as u128)
}

/// `IdHasher::write` on `bytes`, from storage `h`.
pub open spec fn id_fold_bytes(h: u128, bytes: Seq<u8>) -> u128
    decreases bytes.len(),
{
    if bytes.len() == 0 {
        h
    } else {
        id_step(id_fold_bytes(h, bytes.drop_last()), bytes.last())
    }
}

proof fn lemma_id_fold_push(h: u128, bytes: Seq<u8>, b: u8)
    ensures
        id_fold_bytes(h, bytes.push(b)) == id_step(id_fold_bytes(h, bytes), b),
{
    assert(bytes.push(b).drop_last() =~= bytes);
}

/// `write_u8` is injective: distinct bytes are stored as distinct values,
/// and the lowest byte of the stored value is the input.
pub proof fn law_write_u8_injective(a: u8, b: u8)
    ensures
        spread_u8(a) as u8 == a,
        a != b ==> spread_u8(a) != spread_u8(b),
{
    assert(((a as u64).wrapping_mul(0x0101_0101_0101_0101u64)) as u8 == a) by (bit_vector);
    assert(((b as u64).wrapping_mul(0x0101_0101_0101_0101u64)) as u8 == b) by (bit_vector);
}

/// `write_u16` is injective: the low 16 bits of the stored value are the input.
pub proof fn law_write_u16_injective(a: u16, b: u16)
    ensures
        spread_u16(a) as u16 == a,
        a != b ==> spread_u16(a) != spread_u16(b),
{
    assert(((a as u64).wrapping_mul(0x0001_0001_0001_0001u64)) as u16 == a) by (bit_vector);
    assert(((b as u64).wrapping_mul(0x0001_0001_0001_0001u64)) as u16 == b) by (bit_vector);
}

/// `write_u32` is injective: the low 32 bits of the stored value are the input.
pub proof fn law_write_u32_injective(a: u32, b: u32)
    ensures
        spread_u32(a) as u32 == a,
        a != b ==> spread_u32(a) != spread_u32(b),
{
    assert((((a as u64) << 32u64) | (a as u64)) as u32 == a) by (bit_vector);
    assert((((b as u64) << 32u64) | (b as u64)) as u32 == b) by (bit_vector);
}

/// The narrow writers fill the whole 64-bit output: every byte lane of the
/// hash holds the input byte, every 16-bit lane the input half-word, and
/// both 32-bit halves the input word.
pub proof fn law_spread_fills_all_lanes(a: u8, b: u16, c: u32)
    ensures
        (spread_u8(a) as u64) >> 56u64 == a as u64,
        (spread_u16(b) as u64) >> 48u64 == b as u64,
        (spread_u32(c) as u64) >> 32u64 == c as u64,
{
    assert((((a as u64).wrapping_mul(0x0101_0101_0101_0101u64)) as u128 as u64) >> 56u64 == a as u64)
        by (bit_vector);
    assert((((b as u64).wrapping_mul(0x0001_0001_0001_0001u64)) as u128 as u64) >> 48u64 == b as u64)
        by (bit_vector);
    assert(((((c as u64) << 32u64) | (c as u64)) as u128 as u64) >> 32u64 == c as u64)
        by (bit_vector);
}

} // verus!
