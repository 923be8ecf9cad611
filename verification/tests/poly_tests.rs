use numiproof::field::{Fp, root_of_unity};
use numiproof::poly::{Poly, fft_in_place, ifft_in_place, lde_from_evals,
    vanishing_on_extended, vanishing_poly_evals, eval_poly_on_domain};

#[test]
fn poly_eval_matches_fft_point() {
    // p(x) = 3 + 2x + x^2
    let p = Poly::new(vec![Fp::new(3), Fp::new(2), Fp::new(1)]);
    let n = 4usize; // pad to 4
    let k = n.trailing_zeros();
    let w = root_of_unity(k);
    let mut evals = vec![Fp::zero(); n];
    evals[..p.coeffs.len()].copy_from_slice(&p.coeffs[..]);
    fft_in_place(&mut evals, w);
    // Check evaluations at first few points
    let mut x = Fp::one();
    for ev in evals.iter().take(n) {
        assert_eq!(p.eval(x), *ev);
        x = x.mul(w);
    }
}

#[test]
fn ntt_roundtrip() {
    // ifft(fft(a)) == a for power-of-two sizes
    for log_n in 1..=8u32 {
        let n = 1usize << log_n;
        let w = root_of_unity(log_n);
        let orig: Vec<Fp> = (0..n).map(|i| Fp::new((i as u64).wrapping_mul(0x9E37) + 11)).collect();
        let mut a = orig.clone();
        fft_in_place(&mut a, w);
        ifft_in_place(&mut a, w);
        assert_eq!(a, orig);
    }
}

#[test]
fn lde_agrees_with_base_points() {
    // lde_from_evals(evals, r)[i << r] == evals[i] for power-of-two bases
    let base: Vec<Fp> = (0..8u64).map(|i| Fp::new(i * i + 5)).collect();
    let r = 2u32;
    let ext = lde_from_evals(&base, r);
    assert_eq!(ext.len(), 8 << r);
    for i in 0..8 {
        assert_eq!(ext[i << r], base[i]);
    }
}

#[test]
fn vanishing_poly_is_zero_on_its_domain() {
    let evals = vanishing_poly_evals(8);
    assert_eq!(evals.len(), 8);
    for e in evals.iter() {
        assert_eq!(*e, Fp::zero());
    }
    // on the blown-up domain, the base vanishing polynomial is zero exactly
    // at the points that map back to the base domain
    let ext = vanishing_on_extended(16, 8);
    assert_eq!(ext.len(), 16);
    for (i, e) in ext.iter().enumerate() {
        if i % 2 == 0 {
            assert_eq!(*e, Fp::zero());
        } else {
            assert_ne!(*e, Fp::zero());
        }
    }
}

#[test]
fn eval_poly_on_domain_matches_horner() {
    let coeffs = vec![Fp::new(7), Fp::new(3), Fp::new(1)];
    let d = 8usize;
    let out = eval_poly_on_domain(&coeffs, d);
    let w = root_of_unity(3);
    let p = Poly::new(coeffs.clone());
    let mut x = Fp::one();
    for i in 0..d {
        assert_eq!(out[i], p.eval(x));
        x = x.mul(w);
    }
}
