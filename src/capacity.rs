use vstd::prelude::*;

verus! {

/// `2^32`, the unit of the fixed-point fractions of the byte model.
pub const FIXED_ONE: u128 = 0x1_0000_0000;

/// `(b - 1) / b` in units of `2^-32`, rounded down.
pub open spec fn keep_ratio(b: nat) -> nat {
    if b == 0 {
        0
    } else {
        (((b - 1) * FIXED_ONE) / (b as int)) as nat
    }
}

/// The chance that a given bucket of `b` stays empty after `n` keys were
/// hashed uniformly, `((b - 1) / b)^n`, in units of `2^-32`; every factor is
/// rounded down.
pub open spec fn empty_chance(b: nat, n: nat) -> nat
    decreases n,
{
    if n == 0 {
        FIXED_ONE as nat
    } else {
        (empty_chance(b, (n - 1) as nat) * keep_ratio(b) / (FIXED_ONE as nat)) as nat
    }
}

/// The expected number of empty buckets, `b * ((b - 1) / b)^n`, rounded
/// down.
pub open spec fn expected_empty(b: nat, n: nat) -> nat {
    (b * empty_chance(b, n) / (FIXED_ONE as nat)) as nat
}

/// Whether `b` buckets for `n` keys fit in `units` storage units: one unit
/// per key and one per bucket expected to stay empty.
pub open spec fn fits_units(b: nat, n: nat, units: nat) -> bool {
    n + expected_empty(b, n) <= units
}

proof fn lemma_ratio_bounded(b: nat)
    ensures
        keep_ratio(b) <= FIXED_ONE,
{
    if b > 0 {
        assert((b - 1) * FIXED_ONE <= b * FIXED_ONE) by (nonlinear_arith)
            requires b >= 1;
        vstd::arithmetic::div_mod::lemma_div_is_ordered(
            (b - 1) * FIXED_ONE,
            b * FIXED_ONE,
            b as int,
        );
        vstd::arithmetic::div_mod::lemma_div_multiples_vanish(FIXED_ONE as int, b as int);
        assert(b * FIXED_ONE == FIXED_ONE * b) by (nonlinear_arith);
    }
}

proof fn lemma_chance_bounded(b: nat, n: nat)
    ensures
        empty_chance(b, n) <= FIXED_ONE,
    decreases n,
{
    if n > 0 {
        lemma_chance_bounded(b, (n - 1) as nat);
        lemma_ratio_bounded(b);
        let c = empty_chance(b, (n - 1) as nat);
        let k = keep_ratio(b);
        assert(c * k <= FIXED_ONE * FIXED_ONE) by (nonlinear_arith)
            requires c <= FIXED_ONE, k <= FIXED_ONE;
        vstd::arithmetic::div_mod::lemma_div_is_ordered(
            (c * k) as int,
            FIXED_ONE * FIXED_ONE,
            FIXED_ONE as int,
        );
        vstd::arithmetic::div_mod::lemma_div_multiples_vanish(FIXED_ONE as int, FIXED_ONE as int);
    }
}

proof fn lemma_chance_stays_zero(b: nat, n: nat, m: nat)
    requires
        n <= m,
        empty_chance(b, n) == 0,
    ensures
        empty_chance(b, m) == 0,
    decreases m - n,
{
    if n < m {
        lemma_chance_stays_zero(b, n, (m - 1) as nat);
        assert(empty_chance(b, (m - 1) as nat) * keep_ratio(b) == 0);
    }
}

/// Whether `b` buckets for `n` keys fit in `units` storage units.
pub fn fits(b: usize, n: usize, units: usize) -> (r: bool)
    ensures
        r == fits_units(b as nat, n as nat, units as nat),
{
    let ratio: u128 = if b == 0 {
        0
    } else {
        proof {
            assert((b - 1) * FIXED_ONE <= 0xFFFF_FFFF_FFFF_FFFF * FIXED_ONE) by (nonlinear_arith)
                requires b - 1 <= 0xFFFF_FFFF_FFFF_FFFF;
        }
        ((b - 1) as u128) * FIXED_ONE / (b as u128)
    };
    proof {
        lemma_ratio_bounded(b as nat);
    }
    let mut chance: u128 = FIXED_ONE;
    let mut i: usize = 0;
    while i < n && chance > 0
        invariant
            i <= n,
            chance == empty_chance(b as nat, i as nat),
            ratio == keep_ratio(b as nat),
            ratio <= FIXED_ONE,
        decreases n - i,
    {
        proof {
            lemma_chance_bounded(b as nat, i as nat);
            lemma_chance_bounded(b as nat, (i + 1) as nat);
            assert(chance * ratio <= FIXED_ONE * FIXED_ONE) by (nonlinear_arith)
                requires chance <= FIXED_ONE, ratio <= FIXED_ONE;
        }
        chance = chance * ratio / FIXED_ONE;
        i = i + 1;
    }
    proof {
        if i < n {
            lemma_chance_stays_zero(b as nat, i as nat, n as nat);
        }
        lemma_chance_bounded(b as nat, n as nat);
        assert(b * chance <= 0xFFFF_FFFF_FFFF_FFFF * FIXED_ONE) by (nonlinear_arith)
            requires b <= 0xFFFF_FFFF_FFFF_FFFF, chance <= FIXED_ONE;
    }
    let empty: u128 = (b as u128) * chance / FIXED_ONE;
    (n as u128) + empty <= (units as u128)
}

/// The number of buckets of a separate-chaining table for `n` keys in
/// `units` storage units: the largest `b` in `[1, units]`, to one bucket,
/// with `fits_units(b, n, units)`, found by bisection. `None` if not even one
/// bucket fits.
pub fn separate_chaining_buckets(units: usize, n: usize) -> (r: Option<usize>)
    ensures
        r is None <==> !(units >= 1 && fits_units(1, n as nat, units as nat)),
        r matches Some(b) ==> 1 <= b <= units && fits_units(b as nat, n as nat, units as nat) && (b
            == units || !fits_units(b as nat + 1, n as nat, units as nat)),
{
    if units == 0 || !fits(1, n, units) {
        return None;
    }
    if fits(units, n, units) {
        return Some(units);
    }
    let mut lo: usize = 1;
    let mut hi: usize = units;
    while hi - lo > 1
        invariant
            1 <= lo < hi <= units,
            fits_units(lo as nat, n as nat, units as nat),
            !fits_units(hi as nat, n as nat, units as nat),
        decreases hi - lo,
    {
        let mid = lo + (hi - lo) / 2;
        if fits(mid, n, units) {
            lo = mid;
        } else {
            hi = mid;
        }
    }
    Some(lo)
}

} // verus!
