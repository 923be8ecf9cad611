use numiproof::air::FibonacciAir;
use numiproof::hash::h_many;
use numiproof::stark::{Prover, Verifier, FriConfig, accumulate};

#[test]
fn fib_prove_verify() {
    let air = FibonacciAir::new(1, 1, 64);
    let prover = Prover { cfg: FriConfig { blowup_log2: 2, num_rounds: 1, queries: 32 } };
    let proof = prover.prove_fib(&air);
    assert!(Verifier::verify_fib(&proof));
}

#[test]
fn verify_rejects_tampered_row() {
    let air = FibonacciAir::new(1, 1, 32);
    let prover = Prover { cfg: FriConfig { blowup_log2: 2, num_rounds: 1, queries: 16 } };
    let mut proof = prover.prove_fib(&air);
    // Tamper a byte in first opening row; proof should fail
    if let Some(first) = proof.openings.get_mut(0) {
        if !first.row.is_empty() {
            first.row[0] ^= 1;
        }
    }
    assert!(!Verifier::verify_fib(&proof));
}

#[test]
fn verify_rejects_wrong_query_index() {
    let air = FibonacciAir::new(1, 1, 32);
    let prover = Prover { cfg: FriConfig { blowup_log2: 2, num_rounds: 1, queries: 16 } };
    let mut proof = prover.prove_fib(&air);
    // Force an incorrect index for first opening
    if let Some(first) = proof.openings.get_mut(0) {
        first.idx = (first.idx + 1) % proof.n_rows;
    }
    assert!(!Verifier::verify_fib(&proof));
}

#[test]
fn verify_rejects_bad_next_row_path() {
    let air = FibonacciAir::new(1, 1, 32);
    let prover = Prover { cfg: FriConfig { blowup_log2: 2, num_rounds: 1, queries: 16 } };
    let mut proof = prover.prove_fib(&air);
    // Tamper next_row path on an opening that has a next_row
    let k = proof.openings.iter().position(|o| o.next_row.is_some()).unwrap();
    if let Some(path_next) = &mut proof.openings[k].path_next {
        if let Some(first) = path_next.first_mut() {
            if !first.is_empty() {
                first[0] ^= 1;
            }
        }
    }
    assert!(!Verifier::verify_fib(&proof));
}

#[test]
fn verify_rejects_pub_input_mismatch() {
    let air = FibonacciAir::new(2, 3, 16);
    let prover = Prover { cfg: FriConfig { blowup_log2: 2, num_rounds: 1, queries: 8 } };
    let mut proof = prover.prove_fib(&air);
    // Flip a byte in public input encoding
    if !proof.pub_input_enc.is_empty() {
        proof.pub_input_enc[0] ^= 1;
    }
    assert!(!Verifier::verify_fib(&proof));
}

#[test]
fn fib_prove_verify_multi_round() {
    let air = FibonacciAir::new(1, 1, 64);
    let prover = Prover { cfg: FriConfig { blowup_log2: 3, num_rounds: 3, queries: 8 } };
    let proof = prover.prove_fib(&air);
    assert!(Verifier::verify_fib(&proof));
    let rounds = proof.fri_rounds.as_ref().unwrap();
    assert!(rounds.rounds.last().unwrap().len < rounds.rounds.first().unwrap().len);
}

#[test]
fn fib_prove_verify_production_shape() {
    // production-shaped parameters: deep folding over a large blown-up domain
    let air = FibonacciAir::new(1, 1, 512);
    let prover = Prover { cfg: FriConfig { blowup_log2: 3, num_rounds: 5, queries: 40 } };
    let proof = prover.prove_fib(&air);
    assert!(Verifier::verify_fib(&proof));
    let rounds = proof.fri_rounds.as_ref().unwrap();
    assert_eq!(rounds.rounds.len(), 5);
    assert!(rounds.rounds.last().unwrap().len < rounds.rounds.first().unwrap().len);
}

#[test]
fn verify_rejects_tampered_fri_pair_value() {
    let air = FibonacciAir::new(1, 1, 32);
    let prover = Prover { cfg: FriConfig { blowup_log2: 2, num_rounds: 2, queries: 8 } };
    let mut proof = prover.prove_fib(&air);
    // Tamper the first pair opening's low value
    if let Some(rqs) = &mut proof.fri_round_queries {
        let v = rqs[0].rounds[0].pair.lo.value;
        rqs[0].rounds[0].pair.lo.value = v.add(numiproof::field::Fp::one());
    }
    assert!(!Verifier::verify_fib(&proof));
}

#[test]
fn accumulate_is_byte_stable() {
    let c = vec![1u8, 2, 3];
    let p = vec![9u8; 48];
    // matches the domain-labelled hash of its parts and repeats exactly
    let a1 = accumulate(None, &c);
    let a2 = accumulate(None, &c);
    assert_eq!(a1, a2);
    assert_eq!(a1, h_many(b"accumulator", &vec![c.clone()]));
    let b1 = accumulate(Some(&p), &c);
    assert_eq!(b1, h_many(b"accumulator", &vec![p.clone(), c.clone()]));
    assert_ne!(a1, b1);
}
