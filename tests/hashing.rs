use hashset::{Hasher, LinearProber, ModHash, MulHash, Prober, QuadraticProber, TriangularProber, XorShiftHash};

#[test]
fn mod_hash_takes_remainder() {
    assert_eq!(ModHash::hash(&10, 7), 3);
    assert_eq!(ModHash::hash(&32768, 32768), 0);
    assert_eq!(ModHash::hash(&u32::MAX, 1000), 295);
}

#[test]
fn mod_hash_of_zero_is_zero() {
    for m in [1usize, 2, 7, 1024, 32768, usize::MAX] {
        assert_eq!(ModHash::hash(&0, m), 0);
    }
}

#[test]
fn mul_hash_exact_values() {
    assert_eq!(MulHash::hash(&1, 1024), 632);
    assert_eq!(MulHash::hash(&2, 1024), 241);
    assert_eq!(MulHash::hash(&1000, 1000), 33);
    assert_eq!(MulHash::hash(&0, 7), 0);
    assert_eq!(MulHash::hash(&12345, 32768), 20630);
}

#[test]
fn mul_hash_is_stable() {
    for k in [0u32, 1, 17, 4096, u32::MAX] {
        assert_eq!(MulHash::hash(&k, 32768), MulHash::hash(&k, 32768));
    }
}

#[test]
fn xor_shift_hash_exact_values() {
    assert_eq!(XorShiftHash::hash(&1, 1024), 935);
    assert_eq!(XorShiftHash::hash(&2, 1024), 664);
    assert_eq!(XorShiftHash::hash(&0, 10), 0);
}

#[test]
fn xor_shift_hash_spreads_neighbours() {
    let buckets: Vec<usize> = (1u32..=8).map(|k| XorShiftHash::hash(&k, 1024)).collect();
    assert_eq!(buckets, vec![935, 664, 581, 305, 850, 232, 755, 611]);
    let mut seen = std::collections::HashSet::new();
    for k in 0u32..1024 {
        seen.insert(XorShiftHash::hash(&k, 1024));
    }
    // far more spread than a handful of buckets
    assert!(seen.len() > 512);
}

#[test]
fn hashes_stay_in_range() {
    for max in [1usize, 2, 3, 10, 1024, 32768] {
        for k in [0u32, 1, 2, 99, 65535, 1 << 20, u32::MAX] {
            assert!(ModHash::hash(&k, max) < max);
            assert!(MulHash::hash(&k, max) < max);
            assert!(XorShiftHash::hash(&k, max) < max);
        }
    }
    assert!(MulHash::hash(&u32::MAX, usize::MAX) < usize::MAX);
}

#[test]
fn probers_offsets() {
    assert_eq!(LinearProber::probe(4), 4);
    assert_eq!(QuadraticProber::probe(4), 16);
    assert_eq!(TriangularProber::probe(4), 10);
    assert_eq!(TriangularProber::probe(1), 1);
    assert_eq!(TriangularProber::probe(0), 0);
    assert_eq!(TriangularProber::probe(7), 28);
    assert_eq!(QuadraticProber::probe(32768), 1 << 30);
}
