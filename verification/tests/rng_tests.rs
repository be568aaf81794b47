use lattice::encrypt::lfsr;
use lattice::rng::rng;

#[test]
fn rng_draws_reversed_register_bits() {
    let mut g = rng(4);
    assert_eq!(g.next(), 2305843009213693952);
    assert_eq!(g.next(), 6917529027641081861);
    assert_eq!(g.next(), 11529215046068469881);
}

#[test]
fn rng_first_draws_of_encryption_seed() {
    let mut g = rng(17709312065);
    assert_eq!(g.next(), 9373523509944254464);
    assert_eq!(g.next(), 13241429852155805711);
    assert_eq!(g.next(), 1904231202848506008);
    assert_eq!(g.next(), 6561132086831353071);
}

#[test]
fn rng_state_moves_on() {
    let mut g = rng(4);
    assert_eq!(g.state_value(), 4);
    g.next();
    assert_ne!(g.state_value(), 4);
}

#[test]
fn lfsr_matches_rng() {
    let mut a = lfsr(714014738);
    let mut b = rng(714014738);
    for _ in 0..5 {
        assert_eq!(a.next(), b.next());
    }
    let mut c = lfsr(714014738);
    assert_eq!(c.next(), 5188412113810358272);
    assert_eq!(c.next(), 1732069583587639297);
}

#[test]
fn draw_moves_register_by_feedback() {
    for seed in [4u64, 17709312065, 714014738, u64::MAX, 1 << 63] {
        let mut g = rng(seed);
        for _ in 0..5 {
            let s = g.state_value();
            let _ = g.next();
            let t = g.state_value();
            let bit = |k: u32| if k < 64 { (s >> k) & 1 } else { (t >> (k - 64)) & 1 };
            for j in 0..64u32 {
                assert_eq!((t >> j) & 1, bit(j) ^ bit(j + 1) ^ bit(j + 3) ^ bit(j + 4));
            }
        }
    }
}
