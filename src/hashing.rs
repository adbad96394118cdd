use vstd::prelude::*;

verus! {

/// A hash function for keys of type `T`.
///
/// Hashers are never instantiated: `hash` is a pure function of the key and
/// the number of buckets.
pub trait Hasher<T> {
    /// The bucket that `val` goes to in a table of `max` buckets.
    spec fn spec_hash(val: T, max: usize) -> int;

    /// Every bucket index lies in `[0, max)`.
    proof fn lemma_hash_range(val: T, max: usize)
        requires
            max > 0,
        ensures
            0 <= Self::spec_hash(val, max) < max,
    ;

    /// Hashing function: an index in `[0, max)` for `val`.
    fn hash(val: &T, max: usize) -> (r: usize)
        requires
            max > 0,
        ensures
            r as int == Self::spec_hash(*val, max),
            r < max,
    ;
}

/// Modulo hasher: the key modulo the number of buckets.
///
/// A deliberately weak baseline that keeps only the low-order part of the key.
pub struct ModHash;

impl Hasher<u32> for ModHash {
    open spec fn spec_hash(val: u32, max: usize) -> int {
        val as int % max as int
    }

    proof fn lemma_hash_range(val: u32, max: usize) {
    }

    fn hash(val: &u32, max: usize) -> (r: usize) {
        (*val as usize) % max
    }
}

/// The fractional part of the golden ratio, `0.6180339887498949...`, in units
/// of `2^-64`.
pub const GOLDEN_FRACTION: u128 = 0x9E37_79B9_7F4A_7C15;

/// `2^64`, the unit of `GOLDEN_FRACTION`.
pub const TWO_POW_64: u128 = 0x1_0000_0000_0000_0000;

/// The modulo hasher sends key zero to bucket zero, whatever the number of
/// buckets.
pub proof fn lemma_mod_hash_of_zero(max: usize)
    requires
        max > 0,
    ensures
        ModHash::spec_hash(0, max) == 0,
{
}

/// Multiplicative hasher.
///
/// The key is multiplied by the fractional part of the golden ratio; the
/// fractional part of that product, scaled by the number of buckets and
/// rounded down, is the bucket. The arithmetic is exact in fixed point with
/// 64 fractional bits.
pub struct MulHash;

/// The fractional part of `val * GOLDEN_FRACTION / 2^64`, in units of `2^-64`.
pub open spec fn golden_fraction_of(val: u32) -> int {
    (val as int * GOLDEN_FRACTION as int) % TWO_POW_64 as int
}

impl Hasher<u32> for MulHash {
    open spec fn spec_hash(val: u32, max: usize) -> int {
        (max as int * golden_fraction_of(val)) / TWO_POW_64 as int
    }

    proof fn lemma_hash_range(val: u32, max: usize) {
        let m = max as int;
        let f = golden_fraction_of(val);
        assert(0 <= m * f) by (nonlinear_arith)
            requires 0 <= m, 0 <= f;
        assert(m * f < m * TWO_POW_64) by (nonlinear_arith)
            requires 0 < m, 0 <= f < TWO_POW_64;
        assert((m * f) / (TWO_POW_64 as int) < m) by (nonlinear_arith)
            requires m * f < m * TWO_POW_64, 0 <= m * f;
    }

    fn hash(val: &u32, max: usize) -> (r: usize) {
        proof {
            assert(*val as int * GOLDEN_FRACTION as int <= 0xFFFF_FFFF * GOLDEN_FRACTION as int)
                by (nonlinear_arith);
        }
        let frac: u128 = ((*val as u128) * GOLDEN_FRACTION) % TWO_POW_64;
        proof {
            let m = max as int;
            let f = frac as int;
            assert(0 <= m * f <= m * TWO_POW_64) by (nonlinear_arith)
                requires 0 <= m, 0 <= f < TWO_POW_64;
            assert(m * f < m * TWO_POW_64) by (nonlinear_arith)
                requires 0 < m, 0 <= f < TWO_POW_64;
            assert(m * TWO_POW_64 <= 0xFFFF_FFFF_FFFF_FFFF * TWO_POW_64) by (nonlinear_arith)
                requires m <= 0xFFFF_FFFF_FFFF_FFFF;
            assert((m * f) / (TWO_POW_64 as int) < m) by (nonlinear_arith)
                requires m * f < m * TWO_POW_64, 0 <= m * f;
        }
        (((max as u128) * frac) / TWO_POW_64) as usize
    }
}

/// One round of the xor-shift hasher: `x ^ (x >> 16)`, times `0x45D9F3B`
/// with wraparound.
pub open spec fn xor_shift_round(x: u32) -> u32 {
    ((x >> 16u32) ^ x).wrapping_mul(0x45d_9f3b_u32)
}

/// The three-round avalanche of the xor-shift hasher.
pub open spec fn xor_shift_mix(x: u32) -> u32 {
    let y = xor_shift_round(xor_shift_round(x));
    (y >> 16u32) ^ y
}

/// Xor-shift hasher: a fixed shift-xor-multiply avalanche of the key, reduced
/// modulo the number of buckets.
pub struct XorShiftHash;

impl Hasher<u32> for XorShiftHash {
    open spec fn spec_hash(val: u32, max: usize) -> int {
        xor_shift_mix(val) as int % max as int
    }

    proof fn lemma_hash_range(val: u32, max: usize) {
    }

    fn hash(val: &u32, max: usize) -> (r: usize) {
        let x = *val;
        let x = ((x >> 16) ^ x).wrapping_mul(0x45d_9f3b_u32);
        let x = ((x >> 16) ^ x).wrapping_mul(0x45d_9f3b_u32);
        let x = (x >> 16) ^ x;
        (x as usize) % max
    }
}

} // verus!
