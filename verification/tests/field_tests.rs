use numiproof::field::{Fp, MODULUS, bit_reverse, root_of_unity};
use rand::{Rng, SeedableRng};
use rand::rngs::StdRng;

#[test]
fn field_add_mul() {
    let a = Fp::new(123);
    let b = Fp::new(456);
    let c = a.add(b);
    let d = a.mul(b);
    assert_eq!(c.sub(b), a);
    assert_eq!(d.mul(b.inv()), a);
}

#[test]
fn roots_pow_two() {
    let w = root_of_unity(20);
    // w^(2^20) == 1
    assert_eq!(w.pow(1u128 << 20), Fp::one());
    // w^(2^19) != 1 (primitive)
    assert_ne!(w.pow(1u128 << 19), Fp::one());
}

#[test]
fn reduce_u128_matches_mod() {
    let mut rng = StdRng::seed_from_u64(0xC0FFEE);
    for _ in 0..2000 {
        let hi: u64 = rng.gen();
        let lo: u64 = rng.gen();
        let x = ((hi as u128) << 64) | (lo as u128);
        let r = Fp::from_u128(x).to_u64();
        let e = (x % (MODULUS as u128)) as u64;
        assert_eq!(r, e);
    }
}

#[test]
fn mul_matches_big_mod() {
    let mut rng = StdRng::seed_from_u64(42);
    for _ in 0..2000 {
        let a: u64 = rng.gen();
        let b: u64 = rng.gen();
        let fa = Fp::new(a);
        let fb = Fp::new(b);
        let prod = (a as u128) * (b as u128);
        let expected = (prod % (MODULUS as u128)) as u64;
        assert_eq!(fa.mul(fb).0, expected);
    }
}

#[test]
fn inverse_property() {
    let mut rng = StdRng::seed_from_u64(7);
    for _ in 0..2000 {
        let mut a: u64 = rng.gen();
        // avoid zero
        if a % MODULUS == 0 {
            a = 1;
        }
        let fa = Fp::new(a);
        assert_eq!(fa.mul(fa.inv()), Fp::one());
    }
}

#[test]
fn pow_identity() {
    let mut rng = StdRng::seed_from_u64(999);
    for _ in 0..512 {
        let a = Fp::new(rng.gen());
        assert_eq!(a.pow(0), Fp::one());
        assert_eq!(a.pow(1), a);
        assert_eq!(a.pow(2), a.mul(a));
    }
}

#[test]
fn roots_across_powers() {
    // Check a range of powers for primitive property
    for power in 8..=28 {
        let w = root_of_unity(power);
        assert_eq!(w.pow(1u128 << power), Fp::one());
        if power > 0 {
            assert_ne!(w.pow(1u128 << (power - 1)), Fp::one());
        }
    }
}

#[test]
fn bit_reverse_permutation_roundtrip() {
    for bits in 1..=12 {
        let n = 1usize << bits;
        let mut seen = vec![false; n];
        for i in 0..n {
            let j = bit_reverse(i, bits as u32);
            assert!(j < n);
            seen[j] = true;
        }
        assert!(seen.into_iter().all(|v| v));
    }
}

#[test]
fn neg_add_cancels() {
    for x in [0u64, 1, 7, MODULUS - 1, 0xDEAD_BEEF] {
        let a = Fp::new(x);
        assert_eq!(a.neg().add(a), Fp::zero());
    }
}
