use vstd::prelude::*;

verus! {

/// Offset added to the home bucket at the `i`th probing attempt of an
/// open-addressing table.
pub trait Prober {
    /// The offset used at attempt `i`.
    spec fn spec_probe(i: nat) -> nat;

    /// Every offset is at most `i * i`, so that probing a table of a few
    /// thousand buckets never overflows.
    proof fn lemma_probe_bound(i: nat)
        ensures
            Self::spec_probe(i) <= i * i,
    ;

    /// Provides the offset at the `i`th attempt.
    fn probe(i: usize) -> (r: usize)
        requires
            Self::spec_probe(i as nat) <= usize::MAX,
        ensures
            r as nat == Self::spec_probe(i as nat),
    ;
}

/// Triangular probing: the offset at attempt `i` is `1 + 2 + ... + i`.
pub struct TriangularProber;

impl Prober for TriangularProber {
    open spec fn spec_probe(i: nat) -> nat {
        (i * (i + 1) / 2) as nat
    }

    proof fn lemma_probe_bound(i: nat) {
        assert(i * (i + 1) == i * i + i) by (nonlinear_arith);
        assert(i <= i * i || i == 0) by (nonlinear_arith);
    }

    fn probe(i: usize) -> (r: usize) {
        // halve the even factor first, so that only the result has to fit
        if i % 2 == 0 {
            proof {
                let h = i as int / 2;
                assert(i * (i + 1) == 2 * (h * (i + 1))) by (nonlinear_arith)
                    requires i == 2 * h;
                assert(0 <= h * (i + 1)) by (nonlinear_arith)
                    requires 0 <= h;
            }
            (i / 2) * (i + 1)
        } else {
            proof {
                let h = (i as int + 1) / 2;
                assert(i * (i + 1) == 2 * (i * h)) by (nonlinear_arith)
                    requires i + 1 == 2 * h;
                assert(0 <= i * h) by (nonlinear_arith)
                    requires 0 <= h, 0 <= i;
            }
            i * (i / 2 + 1)
        }
    }
}

/// Linear probing: the offset at attempt `i` is `i`, so every bucket is
/// tried in turn.
pub struct LinearProber;

impl Prober for LinearProber {
    open spec fn spec_probe(i: nat) -> nat {
        i
    }

    proof fn lemma_probe_bound(i: nat) {
        assert(i <= i * i || i == 0) by (nonlinear_arith);
    }

    fn probe(i: usize) -> (r: usize) {
        i
    }
}

/// Quadratic probing: the offset at attempt `i` is `i * i`.
///
/// Not every home bucket reaches every other bucket this way, so a table
/// probed quadratically may refuse a key while some buckets are still free.
pub struct QuadraticProber;

impl Prober for QuadraticProber {
    open spec fn spec_probe(i: nat) -> nat {
        i * i
    }

    proof fn lemma_probe_bound(i: nat) {
    }

    fn probe(i: usize) -> (r: usize) {
        i * i
    }
}

} // verus!
