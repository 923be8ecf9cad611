use numiproof::field::Fp;
use numiproof::fri::{FriProver, FriVerifier};

#[test]
fn fri_commit_and_verify_single_opening() {
    // Build a simple oracle and verify inclusion for several indices
    let values: Vec<Fp> = (0..32).map(|i| Fp::new(i as u64 + 1)).collect();
    let (commit, mt) = FriProver::commit(&values);
    for idx in [0usize, 1, 7, 15, 31] {
        let val = values[idx];
        let proof = FriProver::open(&mt, idx, val);
        assert!(FriVerifier::verify_opening(&commit, &proof));
    }
}

#[test]
fn fri_fold_values_and_pair_opening_consistency() {
    let values: Vec<Fp> = (0..64).map(|i| Fp::new((i as u64).wrapping_mul(3) + 5)).collect();
    let (commit, mt) = FriProver::commit(&values);
    let alpha = Fp::new(7);
    let folded = FriProver::fold_values(alpha, &values);
    let (round_commit, round_mt) = FriProver::commit_round(&folded);

    // For a few positions, check the folded relation via the pair opening
    for base_idx in [0usize, 5, 13, 27, 31] {
        let pair = FriProver::open_pair(&values, &mt, base_idx);
        assert!(FriVerifier::verify_pair(&commit.oracle.root, commit.oracle.len, &pair));
        // Compute expected folded value
        let lo = pair.lo.value;
        let hi = pair.hi.value;
        let expected = lo.add(alpha.mul(hi));
        // Verify inclusion in folded round for the mapped index
        let folded_idx = base_idx % folded.len();
        // check the computed expected value equals the folded value
        assert_eq!(expected, folded[folded_idx]);
        // Also verify pair against the round root
        let pair2 = FriProver::open_pair(&folded, &round_mt, folded_idx);
        assert!(FriVerifier::verify_pair(&round_commit.root, round_commit.len, &pair2));
    }
}

#[test]
fn fri_pair_rejects_tampering() {
    let values: Vec<Fp> = (0..16).map(|i| Fp::new(i as u64 + 3)).collect();
    let (commit, mt) = FriProver::commit(&values);
    let pair = FriProver::open_pair(&values, &mt, 4);
    assert!(FriVerifier::verify_pair(&commit.oracle.root, commit.oracle.len, &pair));
    // tampering the claimed low value flips verification
    let mut bad = pair.clone();
    bad.lo.value = bad.lo.value.add(Fp::one());
    assert!(!FriVerifier::verify_pair(&commit.oracle.root, commit.oracle.len, &bad));
    // tampering any path byte flips verification
    let mut bad2 = pair.clone();
    bad2.hi.path[0][0] ^= 1;
    assert!(!FriVerifier::verify_pair(&commit.oracle.root, commit.oracle.len, &bad2));
}

#[test]
fn deep_quotient_small_case() {
    // f(x) = x^2 - 1; (f(x) - f(3)) / (x - 3) = x + 3
    let p = 0xFFFF_FFFF_0000_0001u64;
    let coeffs = vec![Fp::new(p - 1), Fp::new(0), Fp::new(1)];
    let q = FriProver::deep_quotient(&coeffs, Fp::new(3), Fp::new(8));
    assert_eq!(q.len(), 2);
    assert_eq!(q[0], Fp::new(3));
    assert_eq!(q[1], Fp::new(1));
}

#[test]
fn deep_sample_is_deterministic() {
    let coeffs = vec![Fp::new(1), Fp::new(2), Fp::new(3)];
    let s1 = FriProver::deep_sample(&coeffs, 4, b"seed");
    let s2 = FriProver::deep_sample(&coeffs, 4, b"seed");
    assert_eq!(s1.len(), 4);
    for i in 0..4 {
        assert_eq!(s1[i].z, s2[i].z);
        assert_eq!(s1[i].value, s2[i].value);
        // the sample value is the Horner evaluation at z
        let z = s1[i].z;
        let expected = Fp::new(1).add(z.mul(Fp::new(2).add(z.mul(Fp::new(3)))));
        assert_eq!(s1[i].value, expected);
    }
}
