use numiproof::air::{FibonacciAir, row_to_bytes, bytes_to_fps};
use numiproof::field::Fp;

#[test]
fn fib_trace_and_public_input_consistency() {
    let air = FibonacciAir::new(2, 3, 16);
    let pub_inp = air.public_input();
    assert_eq!(pub_inp.steps as usize, air.steps);
    assert_eq!(pub_inp.a0, air.a0.to_u64());
    assert_eq!(pub_inp.a1, air.a1.to_u64());
    let trace = air.gen_trace();
    assert_eq!(trace.len(), 2);
    assert_eq!(trace[0].len(), air.trace_len());
    assert_eq!(trace[1].len(), air.trace_len());
    // First row equals inputs
    assert_eq!(trace[0][0].to_u64(), pub_inp.a0);
    assert_eq!(trace[1][0].to_u64(), pub_inp.a1);
    // Check last row boundary via check_row
    let last_i = air.trace_len() - 1;
    let last_row = [trace[0][last_i], trace[1][last_i]];
    assert!(FibonacciAir::check_row(last_i, &last_row, None, &pub_inp));
}

#[test]
fn check_row_enforces_transition() {
    let air = FibonacciAir::new(1, 1, 8);
    let pub_inp = air.public_input();
    let trace = air.gen_trace();
    for i in 0..air.trace_len() - 1 {
        let row = [trace[0][i], trace[1][i]];
        let nxt = [trace[0][i + 1], trace[1][i + 1]];
        assert!(FibonacciAir::check_row(i, &row, Some(&nxt), &pub_inp));
    }
    // Tamper next row to break constraint
    let i = 2;
    let row = [trace[0][i], trace[1][i]];
    let mut bad_next = [trace[0][i + 1], trace[1][i + 1]];
    bad_next[1] = bad_next[1].add(Fp::one());
    assert!(!FibonacciAir::check_row(i, &row, Some(&bad_next), &pub_inp));
}

#[test]
fn row_bytes_roundtrip() {
    let row = [Fp::new(5), Fp::new(0xDEAD_BEEF_0000_1234)];
    let bytes = row_to_bytes(&row);
    assert_eq!(bytes.len(), 16);
    let back = bytes_to_fps(&bytes).unwrap();
    assert_eq!(back.len(), 2);
    assert_eq!(back[0], row[0]);
    assert_eq!(back[1], row[1]);
    // a length that is not a multiple of eight is rejected
    assert!(bytes_to_fps(&bytes[..15]).is_none());
}
