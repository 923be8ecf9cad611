use numiproof::examples::{RangeCheckAir, PermutationAir, HashChainAir};
use numiproof::recursion::RecursiveAir;
use numiproof::privacy::{ShieldedAir, Note, note_commitment, nullifier};
use numiproof::field::Fp;

#[test]
fn range_check_trace_consistency() {
    let air = RangeCheckAir::new(42, 8);
    let pub_inp = air.public_input();
    let trace = air.gen_trace();

    assert_eq!(trace.len(), 3);
    assert_eq!(trace[0].len(), 9);

    // Verify first row has the value
    assert_eq!(trace[0][0].to_u64(), 42);
    // Verify last row has accumulator = 0
    assert_eq!(trace[0][8], Fp::zero());

    // Check bits are boolean
    for i in 0..8 {
        let bit = trace[1][i];
        assert!(bit == Fp::zero() || bit == Fp::one());
    }
    let _ = pub_inp;
}

#[test]
fn permutation_check_valid() {
    let input = vec![1, 2, 3, 4, 5];
    let output = vec![5, 3, 1, 4, 2]; // Valid permutation
    let air = PermutationAir::new(input, output);
    let _pub_inp = air.public_input();
    let trace = air.gen_trace();

    // Last row should have equal products
    let last = trace[0].len() - 1;
    assert_eq!(trace[2][last], trace[3][last]);
}

#[test]
fn hash_chain_consistency() {
    let initial = vec![1, 2, 3, 4];
    let air = HashChainAir::new(initial.clone(), 3);
    let pub_inp = air.public_input();
    let trace = air.gen_trace();

    // Verify trace has correct length
    assert_eq!(trace.len(), 6);
    assert_eq!(trace[0].len(), 4); // iterations + 1

    // Verify first row matches initial (padded to 48 bytes)
    let mut initial_padded = initial.clone();
    while initial_padded.len() < 48 {
        initial_padded.push(0);
    }

    for i in 0..6 {
        let start = i * 8;
        let mut chunk = [0u8; 8];
        chunk.copy_from_slice(&initial_padded[start..start + 8]);
        let expected = Fp::new(u64::from_le_bytes(chunk));
        assert_eq!(trace[i][0], expected, "First row limb {} mismatch", i);
    }
    let _ = pub_inp;
}

#[test]
fn hash_chain_rows_satisfy_check_row() {
    let air = HashChainAir::new(vec![7u8; 48], 2);
    let pub_inp = air.public_input();
    let trace = air.gen_trace();
    let n = trace[0].len();
    for i in 0..n - 1 {
        let row: Vec<Fp> = (0..6).map(|j| trace[j][i]).collect();
        let nxt: Vec<Fp> = (0..6).map(|j| trace[j][i + 1]).collect();
        assert!(HashChainAir::check_row(i, &row, Some(&nxt), &pub_inp));
    }
    // with a 48-byte seed the trace chain matches the public final hash
    let last: Vec<Fp> = (0..6).map(|j| trace[j][n - 1]).collect();
    assert!(HashChainAir::check_row(n - 1, &last, None, &pub_inp));
}

#[test]
fn shielded_sum_balances() {
    let air = ShieldedAir::new(vec![5, 7], vec![4, 8], vec![0u8; 48]);
    let pub_inp = air.public_input();
    let trace = air.gen_trace();
    let n = trace[0].len();
    assert_eq!(n, 5);
    // the accumulator ends at zero exactly when sums balance
    assert_eq!(trace[0][n - 1], Fp::zero());
    for i in 0..n - 1 {
        let row = [trace[0][i], trace[1][i]];
        let nxt = [trace[0][i + 1], trace[1][i + 1]];
        assert!(ShieldedAir::check_row(i, &row, Some(&nxt), &pub_inp));
    }
    let last = [trace[0][n - 1], trace[1][n - 1]];
    assert!(ShieldedAir::check_row(n - 1, &last, None, &pub_inp));
    // an instance with excess outputs leaves a nonzero accumulator
    let bad = ShieldedAir::new(vec![4], vec![5], vec![0u8; 48]);
    let bad_trace = bad.gen_trace();
    assert_ne!(bad_trace[0][2], Fp::zero());
}

#[test]
fn recursive_air_trace_boundaries() {
    let cur = vec![3u8; 48];
    let air = RecursiveAir::new(None, &cur, &[0u8; 48], 4);
    let pub_inp = air.public_input();
    let trace = air.gen_trace();
    assert_eq!(trace.len(), 8);
    assert_eq!(trace[0].len(), 4);
    // the first row carries the previous digest's limbs (zero here)
    let row0: Vec<Fp> = (0..8).map(|j| trace[j][0]).collect();
    for j in 0..6 {
        assert_eq!(row0[j], Fp::zero());
    }
    // last row equals the output digest's limbs
    let lastrow: Vec<Fp> = (0..8).map(|j| trace[j][3]).collect();
    assert!(RecursiveAir::check_row(3, &lastrow, None, &pub_inp));
}

#[test]
fn note_commitment_and_nullifier_are_stable() {
    let note = Note {
        value: 1000,
        recipient_pk: vec![0xAB; 32],
        rho: [1u8; 32],
        r: [2u8; 32],
    };
    let cm1 = note_commitment(&note);
    let cm2 = note_commitment(&note);
    assert_eq!(cm1.len(), 48);
    assert_eq!(cm1, cm2);
    let other = Note { value: 1001, ..note.clone() };
    assert_ne!(note_commitment(&other), cm1);
    let nf = nullifier(&[5u8; 32], &[9u8; 32]);
    assert_eq!(nf.len(), 48);
    assert_ne!(nf, nullifier(&[6u8; 32], &[9u8; 32]));
}
