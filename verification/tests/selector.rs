//! The two-draw index selector: distinctness and range over many sizes and
//! seeds.

use p2c_pool::rng::gen_pair;
use rand::rngs::SmallRng;
use rand::SeedableRng;

#[test]
fn gen_pair_distinct() {
    for seed in 0..20u64 {
        let mut rng = SmallRng::seed_from_u64(seed);
        for len in 2..200usize {
            let (a, b) = gen_pair(&mut rng, len);
            assert!(a < len, "first draw out of range");
            assert!(b < len, "second draw out of range");
            assert_ne!(a, b, "draws must be distinct");
        }
    }
}

#[test]
fn gen_pair_minimal_len() {
    let mut rng = SmallRng::seed_from_u64(7);
    for _ in 0..100 {
        let (a, b) = gen_pair(&mut rng, 2);
        assert!((a == 0 && b == 1) || (a == 1 && b == 0));
    }
}
