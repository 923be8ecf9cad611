//! Polynomial primitives over the Goldilocks field: Horner evaluation, the
//! radix-2 number-theoretic transform and its inverse — specified value by
//! value as discrete Fourier sums — low-degree extension from base
//! evaluations, and vanishing-polynomial evaluation on a radix-2 domain.

use vstd::prelude::*;
use vstd::arithmetic::power::pow;
use vstd::arithmetic::power2::pow2;
use crate::field::{Fp, MODULUS, root_of_unity};
use crate::merkle::{is_pow2, next_pow2};
use vstd::calc;

verus! {

/// Every element of the sequence is a canonical field element.
pub open spec fn all_canonical(s: Seq<Fp>) -> bool {
    forall|i: int| 0 <= i < s.len() ==> (#[trigger] s[i]).canonical()
}

/// The base-2 logarithm of a power of two (rounded down elsewhere).
pub open spec fn spec_log2(n: nat) -> nat
    decreases n,
{
    if n <= 1 {
        0
    } else {
        1 + spec_log2(n / 2)
    }
}

/// The smallest power of two at or above `x` (1 for x <= 1).
pub open spec fn spec_next_pow2(x: nat) -> nat
    decreases x,
{
    if x <= 1 {
        1
    } else {
        2 * spec_next_pow2((x + 1) / 2)
    }
}

/// `spec_next_pow2` is a power of two in [x, 2x).
pub proof fn lemma_spec_next_pow2(x: nat)
    requires
        x >= 1,
    ensures
        is_pow2(spec_next_pow2(x)),
        x <= spec_next_pow2(x) < 2 * x,
    decreases x,
{
    if x > 1 {
        lemma_spec_next_pow2((x + 1) / 2);
    }
}

/// Powers of two in the half-open window [x, 2x) are unique.
pub proof fn lemma_pow2_window_unique(a: nat, b: nat, x: nat)
    requires
        x >= 1,
        is_pow2(a),
        is_pow2(b),
        x <= a < 2 * x,
        x <= b < 2 * x,
    ensures
        a == b,
    decreases x,
{
    if x == 1 {
        assert(a == 1 && b == 1);
    } else {
        assert(a >= 2 && b >= 2);
        assert(a % 2 == 0 && b % 2 == 0);
        let x2 = (x + 1) / 2;
        assert(x2 >= 1);
        assert(x2 <= a / 2 < 2 * x2);
        assert(x2 <= b / 2 < 2 * x2);
        lemma_pow2_window_unique(a / 2, b / 2, x2);
    }
}

/// The power-of-two exponent of a power of two.
pub proof fn lemma_pow2_log2(n: nat)
    requires
        is_pow2(n),
    ensures
        pow2(spec_log2(n)) == n,
    decreases n,
{
    if n == 1 {
        vstd::arithmetic::power2::lemma2_to64();
    } else {
        lemma_pow2_log2(n / 2);
        vstd::arithmetic::power2::lemma_pow2_unfold(spec_log2(n));
    }
}

/// The canonical residue of the principal root of unity for a power-of-two
/// domain of the given size.
pub open spec fn spec_root_of(size: nat) -> int {
    pow(7, (((MODULUS - 1) as u64) >> (spec_log2(size) as u64)) as nat) % MODULUS as int
}

/// Horner evaluation of the suffix `coeffs[k..]` at `x`, modulo p.
pub open spec fn eval_suffix(coeffs: Seq<Fp>, x: int, k: int) -> int
    decreases coeffs.len() - k when 0 <= k <= coeffs.len()
{
    if k >= coeffs.len() {
        0
    } else {
        (eval_suffix(coeffs, x, k + 1) * x + coeffs[k].0) % MODULUS as int
    }
}

/// The value of the polynomial with the given coefficients at `x`, modulo p.
pub open spec fn poly_eval_spec(coeffs: Seq<Fp>, x: int) -> int {
    eval_suffix(coeffs, x, 0)
}

/// A polynomial given by its coefficients, constant term first.
#[derive(Clone, Debug)]
pub struct Poly {
    pub coeffs: Vec<Fp>,
}

impl Poly {
    pub fn new(coeffs: Vec<Fp>) -> (r: Self)
        ensures
            r.coeffs@ == coeffs@,
    {
        Poly { coeffs }
    }

    /// The degree bound: one less than the coefficient count, zero when empty.
    pub fn degree(&self) -> (r: usize)
        ensures
            r == if self.coeffs@.len() == 0 { 0int } else { self.coeffs@.len() - 1 },
    {
        if self.coeffs.len() == 0 {
            0
        } else {
            self.coeffs.len() - 1
        }
    }

    /// Horner evaluation at `x`.
    pub fn eval(&self, x: Fp) -> (r: Fp)
        requires
            all_canonical(self.coeffs@),
            x.canonical(),
        ensures
            r.0 == poly_eval_spec(self.coeffs@, x.0 as int),
            r.canonical(),
    {
        horner_eval(&self.coeffs, x)
    }
}

/// Horner evaluation of a coefficient vector at `x`.
pub fn horner_eval(coeffs: &Vec<Fp>, x: Fp) -> (r: Fp)
    requires
        all_canonical(coeffs@),
        x.canonical(),
    ensures
        r.0 == poly_eval_spec(coeffs@, x.0 as int),
        r.canonical(),
{
    let mut acc = Fp::zero();
    let mut k = coeffs.len();
    while k > 0
        invariant
            k <= coeffs@.len(),
            all_canonical(coeffs@),
            x.canonical(),
            acc.canonical(),
            acc.0 == eval_suffix(coeffs@, x.0 as int, k as int),
        decreases k,
    {
        k = k - 1;
        acc = acc.mul(x).add(coeffs[k]);
        proof {
            vstd::arithmetic::div_mod::lemma_add_mod_noop(
                eval_suffix(coeffs@, x.0 as int, k + 1) * x.0,
                coeffs@[k as int].0 as int,
                MODULUS as int);
            vstd::arithmetic::div_mod::lemma_small_mod(
                coeffs@[k as int].0 as nat, MODULUS as nat);
        }
    }
    acc
}

/// The base-2 logarithm of a power-of-two value.
pub fn log2_of_pow2(n: usize) -> (r: u32)
    requires
        is_pow2(n as nat),
    ensures
        r == spec_log2(n as nat),
        pow2(r as nat) == n,
{
    let mut m: usize = n;
    let mut b: u32 = 0;
    proof {
        vstd::arithmetic::power2::lemma2_to64();
        lemma_pow2_log2(n as nat);
    }
    while m > 1
        invariant
            is_pow2(m as nat),
            spec_log2(n as nat) == b + spec_log2(m as nat),
            pow2(b as nat) * m == n,
            b <= 64,
            m >= 1,
        decreases m,
    {
        proof {
            vstd::arithmetic::power2::lemma_pow2_unfold((b + 1) as nat);
            assert(pow2((b + 1) as nat) * (m as nat / 2) == pow2(b as nat) * m)
                by (nonlinear_arith)
                requires
                    pow2((b + 1) as nat) == 2 * pow2(b as nat),
                    m % 2 == 0;
            assert(pow2((b + 1) as nat) * (m as nat / 2) >= pow2((b + 1) as nat) * 1)
                by (nonlinear_arith)
                requires m as nat / 2 >= 1, pow2((b + 1) as nat) >= 0;
            if b + 1 >= 64 {
                vstd::arithmetic::power2::lemma2_to64_rest();
                if b + 1 > 64 {
                    vstd::arithmetic::power2::lemma_pow2_strictly_increases(64, (b + 1) as nat);
                }
                assert(false);
            }
        }
        m = m / 2;
        b = b + 1;
    }
    proof {
        assert(spec_log2(1) == 0);
        lemma_pow2_log2(n as nat);
    }
    b
}

/// The first `cnt` terms of the discrete Fourier sum at frequency `j`:
/// sum over i < cnt of y[i] * w^(i*j), reduced modulo p at every step.
pub open spec fn dft_sum(y: Seq<Fp>, w: int, j: int, cnt: int) -> int
    decreases cnt,
{
    if cnt <= 0 {
        0
    } else {
        (dft_sum(y, w, j, cnt - 1)
            + y[cnt - 1].0 * (pow(w, ((cnt - 1) * j) as nat) % MODULUS as int))
            % MODULUS as int
    }
}

/// Coefficient `j` of the number-theoretic transform of `y` at root `w`:
/// sum over all i of y[i] * w^(i*j), modulo p.
pub open spec fn dft(y: Seq<Fp>, w: int, j: int) -> int {
    dft_sum(y, w, j, y.len() as int)
}

/// The root facts the radix-2 transform rests on: w^n = 1 and w^(n/2) = -1
/// (a length-one transform needs none). They hold of the principal 2^k-th
/// roots by Fermat's little theorem, which lies beyond the solver, so the
/// transform contracts are conditional on them; the tests exercise them.
pub open spec fn fft_root_ok(w: int, n: int) -> bool {
    n == 1 || (n >= 2 && pow(w, n as nat) % MODULUS as int == 1
        && pow(w, (n / 2) as nat) % MODULUS as int == MODULUS - 1)
}

/// The even-indexed half of a sequence.
pub open spec fn evens(y: Seq<Fp>) -> Seq<Fp> {
    Seq::new((y.len() / 2) as nat, |u: int| y[2 * u])
}

/// The odd-indexed half of a sequence.
pub open spec fn odds(y: Seq<Fp>) -> Seq<Fp> {
    Seq::new((y.len() / 2) as nat, |u: int| y[2 * u + 1])
}

/// The Fourier sum only reads the residues of its input: sequences equal
/// pointwise in `.0` transform identically.
pub proof fn lemma_dft_pointwise(y1: Seq<Fp>, y2: Seq<Fp>, w: int, j: int, cnt: int)
    requires
        forall|q: int| 0 <= q < cnt ==> y1[q].0 == y2[q].0,
    ensures
        dft_sum(y1, w, j, cnt) == dft_sum(y2, w, j, cnt),
    decreases cnt,
{
    if cnt > 0 {
        lemma_dft_pointwise(y1, y2, w, j, cnt - 1);
    }
}

/// Dropping a leading reduction under addition: ((x mod p) + y) mod p
/// equals (x + y) mod p.
proof fn lemma_mod_add_l(x: int, y: int)
    ensures
        ((x % MODULUS as int) + y) % MODULUS as int == (x + y) % MODULUS as int,
{
    let m = MODULUS as int;
    vstd::arithmetic::div_mod::lemma_add_mod_noop_right(x % m, y, m);
    vstd::arithmetic::div_mod::lemma_add_mod_noop(x, y, m);
    vstd::arithmetic::div_mod::lemma_add_mod_noop_right(x, y, m);
}

/// Even-index powers pass to the squared root: w^(2*t*j) and (w^2)^(t*j)
/// agree modulo p.
proof fn lemma_pow_even_idx(w: int, w2: int, t: int, j: int)
    requires
        0 <= w,
        w2 == (w * w) % MODULUS as int,
        t >= 0,
        j >= 0,
    ensures
        pow(w, (2 * t * j) as nat) % MODULUS as int
            == pow(w2, (t * j) as nat) % MODULUS as int,
{
    let m = MODULUS as int;
    vstd::arithmetic::power::lemma_square_is_pow2(w);
    vstd::arithmetic::power::lemma_pow_multiplies(w, 2, (t * j) as nat);
    assert(2 * (t * j) == 2 * t * j) by (nonlinear_arith);
    vstd::arithmetic::power::lemma_pow_mod_noop(w * w, (t * j) as nat, m);
}

/// Splitting the Fourier sum by parity, low frequencies: the first 2u terms
/// at frequency j combine the even and odd half-transforms at the squared
/// root as E + w^j * O.
proof fn lemma_dft_split_low(y: Seq<Fp>, w: int, w2: int, j: int, u: int)
    requires
        y.len() % 2 == 0,
        0 <= u <= y.len() / 2,
        0 <= j,
        0 <= w,
        w2 == (w * w) % MODULUS as int,
    ensures
        dft_sum(y, w, j, 2 * u) == (dft_sum(evens(y), w2, j, u)
            + (pow(w, j as nat) % MODULUS as int) * dft_sum(odds(y), w2, j, u))
            % MODULUS as int,
    decreases u,
{
    let m = MODULUS as int;
    let wj = pow(w, j as nat) % m;
    if u == 0 {
        vstd::arithmetic::div_mod::lemma_small_mod(0, MODULUS as nat);
    } else {
        lemma_dft_split_low(y, w, w2, j, u - 1);
        let e1 = dft_sum(evens(y), w2, j, u - 1);
        let o1 = dft_sum(odds(y), w2, j, u - 1);
        let ee = pow(w2, ((u - 1) * j) as nat) % m;
        let av = y[2 * u - 2].0 as int;
        let bv = y[2 * u - 1].0 as int;
        assert(evens(y)[u - 1] == y[2 * (u - 1)]);
        assert(odds(y)[u - 1] == y[2 * (u - 1) + 1]);
        assert(2 * (u - 1) == 2 * u - 2);
        // the even-position power collapses to the squared root
        assert(pow(w, ((2 * u - 2) * j) as nat) % m == ee) by {
            lemma_pow_even_idx(w, w2, u - 1, j);
            assert((2 * u - 2) * j == 2 * (u - 1) * j) by (nonlinear_arith);
        }
        // the odd-position power carries one extra factor w^j
        assert(pow(w, ((2 * u - 1) * j) as nat) % m == (wj * ee) % m) by {
            assert((2 * u - 1) * j == j + (2 * u - 2) * j) by (nonlinear_arith);
            vstd::arithmetic::power::lemma_pow_adds(w, j as nat, ((2 * u - 2) * j) as nat);
            vstd::arithmetic::div_mod::lemma_mul_mod_noop_general(
                pow(w, j as nat), pow(w, ((2 * u - 2) * j) as nat), m);
            assert(pow(w, ((2 * u - 2) * j) as nat) % m == ee) by {
                lemma_pow_even_idx(w, w2, u - 1, j);
                assert((2 * u - 2) * j == 2 * (u - 1) * j) by (nonlinear_arith);
            }
            vstd::arithmetic::div_mod::lemma_mul_mod_noop_general(wj, ee, m);
        }
        // unfold the left side twice and normalize all reductions
        calc! {
            (==)
            dft_sum(y, w, j, 2 * u); {}
            (dft_sum(y, w, j, 2 * u - 1) + bv * (pow(w, ((2 * u - 1) * j) as nat) % m)) % m; {
                assert(bv * ((wj * ee) % m) % m == bv * (wj * ee) % m) by {
                    vstd::arithmetic::div_mod::lemma_mul_mod_noop_general(bv, wj * ee, m);
                }
                vstd::arithmetic::div_mod::lemma_add_mod_noop_right(
                    dft_sum(y, w, j, 2 * u - 1), bv * ((wj * ee) % m), m);
                vstd::arithmetic::div_mod::lemma_add_mod_noop_right(
                    dft_sum(y, w, j, 2 * u - 1), bv * (wj * ee), m);
            }
            (dft_sum(y, w, j, 2 * u - 1) + bv * (wj * ee)) % m; {
                assert(dft_sum(y, w, j, 2 * u - 1)
                    == ((e1 + wj * o1) % m + av * ee) % m);
                lemma_mod_add_l(e1 + wj * o1, av * ee);
                lemma_mod_add_l(e1 + wj * o1 + av * ee, bv * (wj * ee));
            }
            (e1 + wj * o1 + av * ee + bv * (wj * ee)) % m;
        }
        // fold the right side to the same normal form
        calc! {
            (==)
            ((dft_sum(evens(y), w2, j, u) + wj * dft_sum(odds(y), w2, j, u)) % m); {
                assert(dft_sum(evens(y), w2, j, u) == (e1 + av * ee) % m);
                assert(dft_sum(odds(y), w2, j, u) == (o1 + bv * ee) % m);
            }
            ((e1 + av * ee) % m + wj * ((o1 + bv * ee) % m)) % m; {
                assert(wj * ((o1 + bv * ee) % m) % m == wj * (o1 + bv * ee) % m) by {
                    vstd::arithmetic::div_mod::lemma_mul_mod_noop_general(
                        wj, o1 + bv * ee, m);
                }
                vstd::arithmetic::div_mod::lemma_add_mod_noop_right(
                    (e1 + av * ee) % m, wj * ((o1 + bv * ee) % m), m);
                vstd::arithmetic::div_mod::lemma_add_mod_noop_right(
                    (e1 + av * ee) % m, wj * (o1 + bv * ee), m);
            }
            ((e1 + av * ee) % m + wj * (o1 + bv * ee)) % m; {
                lemma_mod_add_l(e1 + av * ee, wj * (o1 + bv * ee));
            }
            (e1 + av * ee + wj * (o1 + bv * ee)) % m; {
                assert(e1 + av * ee + wj * (o1 + bv * ee)
                    == e1 + wj * o1 + av * ee + bv * (wj * ee)) by (nonlinear_arith);
            }
            (e1 + wj * o1 + av * ee + bv * (wj * ee)) % m;
        }
    }
}

/// Splitting the Fourier sum by parity, high frequencies: at frequency
/// j + n/2 the odd half enters negated, E - w^j * O, because w^(n/2) = -1.
proof fn lemma_dft_split_high(y: Seq<Fp>, w: int, w2: int, j: int, u: int)
    requires
        y.len() % 2 == 0,
        y.len() >= 2,
        0 <= u <= y.len() / 2,
        0 <= j,
        0 <= w,
        w2 == (w * w) % MODULUS as int,
        pow(w, y.len() as nat) % MODULUS as int == 1,
        pow(w, (y.len() as int / 2) as nat) % MODULUS as int == MODULUS - 1,
    ensures
        dft_sum(y, w, j + y.len() as int / 2, 2 * u) == (dft_sum(evens(y), w2, j, u)
            - (pow(w, j as nat) % MODULUS as int) * dft_sum(odds(y), w2, j, u))
            % MODULUS as int,
    decreases u,
{
    let m = MODULUS as int;
    let n = y.len() as int;
    let h = n / 2;
    let jj = j + h;
    let wj = pow(w, j as nat) % m;
    if u == 0 {
        vstd::arithmetic::div_mod::lemma_small_mod(0, MODULUS as nat);
    } else {
        lemma_dft_split_high(y, w, w2, j, u - 1);
        let e1 = dft_sum(evens(y), w2, j, u - 1);
        let o1 = dft_sum(odds(y), w2, j, u - 1);
        let ee = pow(w2, ((u - 1) * j) as nat) % m;
        let av = y[2 * u - 2].0 as int;
        let bv = y[2 * u - 1].0 as int;
        assert(evens(y)[u - 1] == y[2 * (u - 1)]);
        assert(odds(y)[u - 1] == y[2 * (u - 1) + 1]);
        assert(2 * (u - 1) == 2 * u - 2);
        // w^((u-1)*n) reduces to 1
        assert(pow(w, ((u - 1) * n) as nat) % m == 1) by {
            vstd::arithmetic::power::lemma_pow_multiplies(w, n as nat, (u - 1) as nat);
            assert(n * (u - 1) == (u - 1) * n) by (nonlinear_arith);
            vstd::arithmetic::power::lemma_pow_mod_noop(pow(w, n as nat), (u - 1) as nat, m);
            vstd::arithmetic::power::lemma1_pow((u - 1) as nat);
            vstd::arithmetic::div_mod::lemma_small_mod(1, MODULUS as nat);
        }
        // the even-position power at the shifted frequency still collapses to ee
        assert(pow(w, ((2 * u - 2) * jj) as nat) % m == ee) by {
            assert((2 * u - 2) * jj == (2 * u - 2) * j + (u - 1) * n) by (nonlinear_arith)
                requires jj == j + h, n == 2 * h;
            vstd::arithmetic::power::lemma_pow_adds(w, ((2 * u - 2) * j) as nat,
                ((u - 1) * n) as nat);
            vstd::arithmetic::div_mod::lemma_mul_mod_noop_general(
                pow(w, ((2 * u - 2) * j) as nat), pow(w, ((u - 1) * n) as nat), m);
            assert(pow(w, ((2 * u - 2) * j) as nat) % m == ee) by {
                lemma_pow_even_idx(w, w2, u - 1, j);
                assert((2 * u - 2) * j == 2 * (u - 1) * j) by (nonlinear_arith);
            }
            vstd::arithmetic::div_mod::lemma_mod_bound(ee * 1, m);
            vstd::arithmetic::div_mod::lemma_mod_bound(pow(w2, ((u - 1) * j) as nat), m);
            vstd::arithmetic::div_mod::lemma_small_mod(ee as nat, MODULUS as nat);
        }
        // the odd-position power gains the factor w^(n/2) = -1
        let ghost neg_wj_ee = ((wj * ee) * (m - 1)) % m;
        assert(pow(w, ((2 * u - 1) * jj) as nat) % m == neg_wj_ee) by {
            assert((2 * u - 1) * jj == (2 * u - 1) * j + ((u - 1) * n + h))
                by (nonlinear_arith)
                requires jj == j + h, n == 2 * h;
            vstd::arithmetic::power::lemma_pow_adds(w, ((2 * u - 1) * j) as nat,
                ((u - 1) * n + h) as nat);
            vstd::arithmetic::power::lemma_pow_adds(w, ((u - 1) * n) as nat, h as nat);
            // reduce the trailing factor: w^((u-1)n + h) = 1 * (-1)
            vstd::arithmetic::div_mod::lemma_mul_mod_noop_general(
                pow(w, ((u - 1) * n) as nat), pow(w, h as nat), m);
            vstd::arithmetic::div_mod::lemma_small_mod((m - 1) as nat, MODULUS as nat);
            assert(pow(w, ((u - 1) * n + h) as nat) % m == m - 1);
            vstd::arithmetic::div_mod::lemma_mul_mod_noop_general(
                pow(w, ((2 * u - 1) * j) as nat), pow(w, ((u - 1) * n + h) as nat), m);
            // and the leading factor to wj * ee as in the low case
            assert(pow(w, ((2 * u - 1) * j) as nat) % m == (wj * ee) % m) by {
                assert((2 * u - 1) * j == j + (2 * u - 2) * j) by (nonlinear_arith);
                vstd::arithmetic::power::lemma_pow_adds(w, j as nat,
                    ((2 * u - 2) * j) as nat);
                vstd::arithmetic::div_mod::lemma_mul_mod_noop_general(
                    pow(w, j as nat), pow(w, ((2 * u - 2) * j) as nat), m);
                assert(pow(w, ((2 * u - 2) * j) as nat) % m == ee) by {
                    lemma_pow_even_idx(w, w2, u - 1, j);
                    assert((2 * u - 2) * j == 2 * (u - 1) * j) by (nonlinear_arith);
                }
                vstd::arithmetic::div_mod::lemma_mul_mod_noop_general(wj, ee, m);
            }
            vstd::arithmetic::div_mod::lemma_mul_mod_noop_general(
                wj * ee, m - 1, m);
        }
        // unfold the left side twice and normalize
        calc! {
            (==)
            dft_sum(y, w, jj, 2 * u); {}
            (dft_sum(y, w, jj, 2 * u - 1) + bv * (pow(w, ((2 * u - 1) * jj) as nat) % m))
                % m; {
                assert(bv * neg_wj_ee % m == bv * ((wj * ee) * (m - 1)) % m) by {
                    vstd::arithmetic::div_mod::lemma_mul_mod_noop_general(
                        bv, (wj * ee) * (m - 1), m);
                }
                vstd::arithmetic::div_mod::lemma_add_mod_noop_right(
                    dft_sum(y, w, jj, 2 * u - 1), bv * neg_wj_ee, m);
                vstd::arithmetic::div_mod::lemma_add_mod_noop_right(
                    dft_sum(y, w, jj, 2 * u - 1), bv * ((wj * ee) * (m - 1)), m);
            }
            (dft_sum(y, w, jj, 2 * u - 1) + bv * ((wj * ee) * (m - 1))) % m; {
                assert(dft_sum(y, w, jj, 2 * u - 1)
                    == ((e1 - wj * o1) % m + av * ee) % m);
                lemma_mod_add_l(e1 - wj * o1, av * ee);
                lemma_mod_add_l(e1 - wj * o1 + av * ee, bv * ((wj * ee) * (m - 1)));
            }
            (e1 - wj * o1 + av * ee + bv * ((wj * ee) * (m - 1))) % m; {
                // (m-1) times a value is its negation modulo m
                assert(e1 - wj * o1 + av * ee + bv * ((wj * ee) * (m - 1))
                    == m * (bv * (wj * ee)) + (e1 - wj * o1 + av * ee - bv * (wj * ee)))
                    by (nonlinear_arith);
                vstd::arithmetic::div_mod::lemma_mod_multiples_vanish(
                    bv * (wj * ee), e1 - wj * o1 + av * ee - bv * (wj * ee), m);
            }
            (e1 - wj * o1 + av * ee - bv * (wj * ee)) % m;
        }
        // fold the right side to the same normal form
        calc! {
            (==)
            ((dft_sum(evens(y), w2, j, u) - wj * dft_sum(odds(y), w2, j, u)) % m); {
                assert(dft_sum(evens(y), w2, j, u) == (e1 + av * ee) % m);
                assert(dft_sum(odds(y), w2, j, u) == (o1 + bv * ee) % m);
            }
            ((e1 + av * ee) % m - wj * ((o1 + bv * ee) % m)) % m; {
                assert(wj * ((o1 + bv * ee) % m) % m == wj * (o1 + bv * ee) % m) by {
                    vstd::arithmetic::div_mod::lemma_mul_mod_noop_general(
                        wj, o1 + bv * ee, m);
                }
                vstd::arithmetic::div_mod::lemma_sub_mod_noop_right(
                    (e1 + av * ee) % m, wj * ((o1 + bv * ee) % m), m);
                vstd::arithmetic::div_mod::lemma_sub_mod_noop_right(
                    (e1 + av * ee) % m, wj * (o1 + bv * ee), m);
            }
            ((e1 + av * ee) % m - wj * (o1 + bv * ee)) % m; {
                lemma_mod_add_l(e1 + av * ee, 0 - wj * (o1 + bv * ee));
            }
            (e1 + av * ee - wj * (o1 + bv * ee)) % m; {
                assert(e1 + av * ee - wj * (o1 + bv * ee)
                    == e1 - wj * o1 + av * ee - bv * (wj * ee)) by (nonlinear_arith);
            }
            (e1 - wj * o1 + av * ee - bv * (wj * ee)) % m;
        }
    }
}

/// The recursive radix-2 decimation-in-time transform: split by parity,
/// transform the halves at the squared root, recombine with the twiddle
/// factors.
fn fft_rec(x: &[Fp], w: Fp) -> (r: Vec<Fp>)
    requires
        is_pow2(x@.len() as nat),
        all_canonical(x@),
        w.canonical(),
    ensures
        r@.len() == x@.len(),
        all_canonical(r@),
        fft_root_ok(w.0 as int, x@.len() as int) ==> forall|j: int|
            0 <= j < x@.len() ==> (#[trigger] r@[j]).0 == dft(x@, w.0 as int, j),
    decreases x@.len(),
{
    let n = x.len();
    if n == 1 {
        let mut out: Vec<Fp> = Vec::new();
        out.push(*vstd::slice::slice_index_get(x, 0));
        proof {
            vstd::arithmetic::power::lemma_pow0(w.0 as int);
            vstd::arithmetic::div_mod::lemma_small_mod(1, MODULUS as nat);
            vstd::arithmetic::div_mod::lemma_small_mod(x@[0].0 as nat, MODULUS as nat);
            assert(dft_sum(x@, w.0 as int, 0, 0) == 0);
            assert(dft_sum(x@, w.0 as int, 0, 1)
                == (0 + x@[0].0 * (pow(w.0 as int, (0 * 0) as nat) % MODULUS as int))
                    % MODULUS as int);
            assert((0 * 0) as nat == 0nat);
            assert(dft(x@, w.0 as int, 0) == x@[0].0);
        }
        return out;
    }
    let half = n / 2;
    proof {
        assert(n % 2 == 0 && is_pow2((n / 2) as nat));
    }
    let mut even: Vec<Fp> = Vec::new();
    let mut odd: Vec<Fp> = Vec::new();
    let mut i: usize = 0;
    while i < half
        invariant
            even@.len() == i,
            odd@.len() == i,
            i <= half,
            2 * half == x@.len(),
            x@.len() <= usize::MAX,
            forall|q: int| 0 <= q < i ==> even@[q] == x@[2 * q],
            forall|q: int| 0 <= q < i ==> odd@[q] == x@[2 * q + 1],
        decreases half - i,
    {
        even.push(*vstd::slice::slice_index_get(x, 2 * i));
        odd.push(*vstd::slice::slice_index_get(x, 2 * i + 1));
        i = i + 1;
    }
    proof {
        assert(even@ =~= evens(x@));
        assert(odd@ =~= odds(x@));
        assert(all_canonical(even@));
        assert(all_canonical(odd@));
    }
    let w2 = w.mul(w);
    proof {
        if fft_root_ok(w.0 as int, n as int) {
            lemma_fft_root_ok_half(w.0 as int, w2.0 as int, n as int);
        }
    }
    let e = fft_rec(even.as_slice(), w2);
    let o = fft_rec(odd.as_slice(), w2);
    let mut out: Vec<Fp> = Vec::new();
    let mut z: usize = 0;
    while z < n
        invariant
            out@.len() == z,
            z <= n,
            all_canonical(out@),
        decreases n - z,
    {
        out.push(Fp::zero());
        z = z + 1;
    }
    let mut wj = Fp::one();
    let mut j: usize = 0;
    proof {
        vstd::arithmetic::power::lemma_pow0(w.0 as int);
        vstd::arithmetic::div_mod::lemma_small_mod(1, MODULUS as nat);
    }
    while j < half
        invariant
            out@.len() == n,
            e@.len() == half,
            o@.len() == half,
            2 * half == n,
            half >= 1,
            j <= half,
            w.canonical(),
            wj.canonical(),
            all_canonical(e@),
            all_canonical(o@),
            all_canonical(out@),
            wj.0 == pow(w.0 as int, j as nat) % MODULUS as int,
            forall|q: int| 0 <= q < j ==> (#[trigger] out@[q]).0
                == (e@[q].0 + (pow(w.0 as int, q as nat) % MODULUS as int) * o@[q].0)
                    % MODULUS as int,
            forall|q: int| 0 <= q < j ==> (#[trigger] out@[q + half]).0
                == (e@[q].0 - (pow(w.0 as int, q as nat) % MODULUS as int) * o@[q].0)
                    % MODULUS as int,
        decreases half - j,
    {
        let t = wj.mul(o[j]);
        let uv = e[j];
        let ghost before = out@;
        out[j] = uv.add(t);
        out[j + half] = uv.sub(t);
        proof {
            assert(forall|q: int| 0 <= q < n && q != j && q != j + half
                ==> out@[q] == before[q]);
            vstd::arithmetic::div_mod::lemma_add_mod_noop_right(
                e@[j as int].0 as int, wj.0 * o@[j as int].0, MODULUS as int);
            vstd::arithmetic::div_mod::lemma_sub_mod_noop_right(
                e@[j as int].0 as int, wj.0 * o@[j as int].0, MODULUS as int);
            assert(out@[j as int].0 == (e@[j as int].0 + wj.0 * o@[j as int].0)
                % MODULUS as int);
            assert(out@[j as int + half].0 == (e@[j as int].0 - wj.0 * o@[j as int].0)
                % MODULUS as int);
        }
        wj = wj.mul(w);
        j = j + 1;
        proof {
            lemma_pow_succ_local(w.0 as int, (j - 1) as nat);
        }
    }
    proof {
        if fft_root_ok(w.0 as int, n as int) {
            lemma_fft_root_ok_half(w.0 as int, w2.0 as int, n as int);
            assert forall|j2: int| 0 <= j2 < n implies (#[trigger] out@[j2]).0
                == dft(x@, w.0 as int, j2) by {
                if j2 < half {
                    lemma_dft_split_low(x@, w.0 as int, w2.0 as int, j2, half as int);
                    assert(e@[j2].0 == dft(evens(x@), w2.0 as int, j2));
                    assert(o@[j2].0 == dft(odds(x@), w2.0 as int, j2));
                } else {
                    let jl = j2 - half;
                    lemma_dft_split_high(x@, w.0 as int, w2.0 as int, jl, half as int);
                    assert(e@[jl].0 == dft(evens(x@), w2.0 as int, jl));
                    assert(o@[jl].0 == dft(odds(x@), w2.0 as int, jl));
                }
            }
        }
    }
    out
}

/// The squared root inherits the transform's root facts at half the length.
proof fn lemma_fft_root_ok_half(w: int, w2: int, n: int)
    requires
        n >= 2,
        n % 2 == 0,
        0 <= w,
        w2 == (w * w) % MODULUS as int,
        fft_root_ok(w, n),
        n == 2 || (n / 2) % 2 == 0,
    ensures
        fft_root_ok(w2, n / 2),
{
    let m = MODULUS as int;
    let h = n / 2;
    // (w^2)^h = w^n = 1
    assert(pow(w2, h as nat) % m == 1) by {
        vstd::arithmetic::power::lemma_pow_mod_noop(w * w, h as nat, m);
        vstd::arithmetic::power::lemma_square_is_pow2(w);
        vstd::arithmetic::power::lemma_pow_multiplies(w, 2, h as nat);
        assert(2 * h == n);
    }
    if h >= 2 {
        // (w^2)^(h/2) = w^(n/2) = -1
        assert(pow(w2, (h / 2) as nat) % m == MODULUS - 1) by {
            vstd::arithmetic::power::lemma_pow_mod_noop(w * w, (h / 2) as nat, m);
            vstd::arithmetic::power::lemma_square_is_pow2(w);
            vstd::arithmetic::power::lemma_pow_multiplies(w, 2, (h / 2) as nat);
            assert(2 * (h / 2) == h);
        }
    }
}

/// One more power of the twiddle factor.
proof fn lemma_pow_succ_local(b: int, i: nat)
    requires
        0 <= b,
    ensures
        pow(b, i + 1) % MODULUS as int
            == ((pow(b, i) % MODULUS as int) * b) % MODULUS as int,
{
    let m = MODULUS as int;
    vstd::arithmetic::power::lemma_pow1(b);
    vstd::arithmetic::power::lemma_pow_adds(b, i, 1);
    vstd::arithmetic::div_mod::lemma_mul_mod_noop_general(pow(b, i), b, m);
}

/// The radix-2 decimation-in-time NTT, written back over its input. When
/// `root` carries the order facts of a principal len-th root of unity
/// (`fft_root_ok`), the result is exactly the discrete Fourier sum of the
/// input; those facts themselves rest on Fermat's little theorem and are
/// exercised by the tests.
pub fn fft_in_place(a: &mut Vec<Fp>, root: Fp)
    requires
        is_pow2(old(a)@.len() as nat),
        old(a)@.len() <= usize::MAX / 2,
        all_canonical(old(a)@),
        root.canonical(),
    ensures
        final(a)@.len() == old(a)@.len(),
        all_canonical(final(a)@),
        fft_root_ok(root.0 as int, old(a)@.len() as int) ==> forall|j: int|
            0 <= j < old(a)@.len() ==> (#[trigger] final(a)@[j]).0
                == dft(old(a)@, root.0 as int, j),
{
    let r = fft_rec(a.as_slice(), root);
    *a = r;
}

/// The canonical residue of the multiplicative inverse of a canonical
/// element: x^(p-2) mod p.
pub open spec fn inv_val(x: int) -> int {
    pow(x, (MODULUS - 2) as nat) % MODULUS as int
}

/// Coefficient `q` of the inverse transform of `y` at the inverse root
/// `wi`: the Fourier sum scaled by the inverse of the length.
pub open spec fn intt_val(y: Seq<Fp>, wi: int, q: int) -> int {
    (dft(y, wi, q) * inv_val(y.len() as int % MODULUS as int)) % MODULUS as int
}

/// In-place inverse NTT: forward transform with the inverse root, then a
/// scale by 1/len. When the inverse root carries the order facts of a
/// principal len-th root (`fft_root_ok`), the result is exactly the scaled
/// Fourier sum at that root.
pub fn ifft_in_place(a: &mut Vec<Fp>, root: Fp)
    requires
        is_pow2(old(a)@.len() as nat),
        old(a)@.len() <= usize::MAX / 2,
        all_canonical(old(a)@),
        root.canonical(),
    ensures
        final(a)@.len() == old(a)@.len(),
        all_canonical(final(a)@),
        fft_root_ok(inv_val(root.0 as int), old(a)@.len() as int) ==> forall|j: int|
            0 <= j < old(a)@.len() ==> (#[trigger] final(a)@[j]).0
                == intt_val(old(a)@, inv_val(root.0 as int), j),
{
    let n = a.len();
    let ghost orig = a@;
    let inv_root = root.inv();
    proof {
        assert(inv_root.0 == inv_val(root.0 as int));
    }
    fft_in_place(a, inv_root);
    let ghost mid = a@;
    let inv_n = Fp::new(n as u64).inv();
    proof {
        assert(inv_n.0 == inv_val(n as int % MODULUS as int));
    }
    let mut i: usize = 0;
    while i < n
        invariant
            a@.len() == n,
            all_canonical(a@),
            inv_n.canonical(),
            i <= n,
            orig.len() == n,
            inv_n.0 == inv_val(n as int % MODULUS as int),
            forall|q: int| i <= q < n ==> a@[q] == mid[q],
            fft_root_ok(inv_val(root.0 as int), n as int) ==> forall|q: int|
                0 <= q < n ==> (#[trigger] mid[q]).0
                    == dft(orig, inv_val(root.0 as int), q),
            forall|q: int| 0 <= q < i ==> (#[trigger] a@[q]).0
                == (mid[q].0 * inv_n.0) % MODULUS as int,
        decreases n - i,
    {
        let v = a[i];
        let ghost before = a@;
        a[i] = v.mul(inv_n);
        proof {
            assert(forall|q: int| 0 <= q < n && q != i ==> a@[q] == before[q]);
        }
        i = i + 1;
    }
    proof {
        if fft_root_ok(inv_val(root.0 as int), n as int) {
            assert forall|j: int| 0 <= j < n implies (#[trigger] a@[j]).0
                == intt_val(orig, inv_val(root.0 as int), j) by {
                assert(a@[j].0 == (mid[j].0 * inv_n.0) % MODULUS as int);
            }
        }
    }
}

/// Evaluate the polynomial with the given coefficients on the radix-2 domain
/// of size `next_pow2(len) << blowup_log2`: zero-pad and transform.
/// A coefficient list padded with zero elements up to length `s`.
pub open spec fn zero_padded(c: Seq<Fp>, s: nat) -> Seq<Fp> {
    Seq::new(s, |q: int| if q < c.len() { c[q] } else { Fp(0u64) })
}

/// A Fourier prefix sum is already reduced.
proof fn lemma_dft_sum_mod(y: Seq<Fp>, w: int, j: int, cnt: int)
    ensures
        dft_sum(y, w, j, cnt) % MODULUS as int == dft_sum(y, w, j, cnt),
{
    let m = MODULUS as int;
    if cnt <= 0 {
        vstd::arithmetic::div_mod::lemma_small_mod(0, MODULUS as nat);
    } else {
        vstd::arithmetic::div_mod::lemma_mod_twice(
            dft_sum(y, w, j, cnt - 1)
                + y[cnt - 1].0 * (pow(w, ((cnt - 1) * j) as nat) % m), m);
    }
}

/// Zero coefficients beyond the original list contribute nothing to the sum.
proof fn lemma_dft_zero_tail(c: Seq<Fp>, s: nat, w: int, j: int, cnt: int)
    requires
        c.len() <= cnt <= s,
    ensures
        dft_sum(zero_padded(c, s), w, j, cnt)
            == dft_sum(zero_padded(c, s), w, j, c.len() as int),
    decreases cnt,
{
    if cnt > c.len() {
        lemma_dft_zero_tail(c, s, w, j, cnt - 1);
        assert(zero_padded(c, s)[cnt - 1].0 == 0);
        lemma_dft_sum_mod(zero_padded(c, s), w, j, cnt - 1);
    }
}

/// Peeling Horner: the Fourier prefix sum of the first k terms plus the
/// weighted Horner value of the suffix is the full polynomial value.
proof fn lemma_horner_tail(c: Seq<Fp>, w: int, j: int, k: int)
    requires
        0 <= w,
        0 <= j,
        0 <= k <= c.len(),
    ensures
        (dft_sum(c, w, j, k) + (pow(w, (k * j) as nat) % MODULUS as int)
            * eval_suffix(c, pow(w, j as nat) % MODULUS as int, k)) % MODULUS as int
            == dft_sum(c, w, j, c.len() as int),
    decreases c.len() - k,
{
    let m = MODULUS as int;
    let x = pow(w, j as nat) % m;
    if k == c.len() {
        assert(eval_suffix(c, x, k) == 0);
        lemma_dft_sum_mod(c, w, j, k);
    } else {
        lemma_horner_tail(c, w, j, k + 1);
        let sk = dft_sum(c, w, j, k);
        let pk = pow(w, (k * j) as nat) % m;
        let pk1 = pow(w, ((k + 1) * j) as nat) % m;
        let ev1 = eval_suffix(c, x, k + 1);
        let cv = c[k].0 as int;
        // one more twiddle power
        assert((pk * x) % m == pk1) by {
            vstd::arithmetic::power::lemma_pow_adds(w, (k * j) as nat, j as nat);
            assert(k * j + j == (k + 1) * j) by (nonlinear_arith);
            vstd::arithmetic::div_mod::lemma_mul_mod_noop_general(
                pow(w, (k * j) as nat), pow(w, j as nat), m);
        }
        calc! {
            (==)
            ((sk + pk * eval_suffix(c, x, k)) % m); {
                assert(eval_suffix(c, x, k) == (ev1 * x + cv) % m);
                assert(pk * ((ev1 * x + cv) % m) % m == pk * (ev1 * x + cv) % m) by {
                    vstd::arithmetic::div_mod::lemma_mul_mod_noop_general(
                        pk, ev1 * x + cv, m);
                }
                vstd::arithmetic::div_mod::lemma_add_mod_noop_right(
                    sk, pk * ((ev1 * x + cv) % m), m);
                vstd::arithmetic::div_mod::lemma_add_mod_noop_right(
                    sk, pk * (ev1 * x + cv), m);
            }
            ((sk + pk * (ev1 * x + cv)) % m); {
                assert(sk + pk * (ev1 * x + cv) == (sk + cv * pk) + (pk * x) * ev1)
                    by (nonlinear_arith);
            }
            (((sk + cv * pk) + (pk * x) * ev1) % m); {
                assert(((pk * x) * ev1) % m == (((pk * x) % m) * ev1) % m) by {
                    vstd::arithmetic::div_mod::lemma_mul_mod_noop_general(
                        pk * x, ev1, m);
                    vstd::arithmetic::div_mod::lemma_mul_mod_noop_general(
                        (pk * x) % m, ev1, m);
                }
                vstd::arithmetic::div_mod::lemma_add_mod_noop_right(
                    sk + cv * pk, (pk * x) * ev1, m);
                vstd::arithmetic::div_mod::lemma_add_mod_noop_right(
                    sk + cv * pk, pk1 * ev1, m);
            }
            (((sk + cv * pk) + pk1 * ev1) % m); {
                assert(dft_sum(c, w, j, k + 1) == (sk + cv * pk) % m);
                lemma_mod_add_l(sk + cv * pk, pk1 * ev1);
            }
            ((dft_sum(c, w, j, k + 1) + pk1 * ev1) % m); {}
            dft_sum(c, w, j, c.len() as int);
        }
    }
}

/// Transforming zero-padded coefficients is evaluating their polynomial:
/// coefficient j of the Fourier sum equals the Horner value at w^j.
pub proof fn lemma_dft_is_poly_eval(c: Seq<Fp>, s: nat, w: int, j: int)
    requires
        0 <= w,
        0 <= j,
        c.len() <= s,
    ensures
        dft(zero_padded(c, s), w, j)
            == poly_eval_spec(c, pow(w, j as nat) % MODULUS as int),
{
    let m = MODULUS as int;
    let x = pow(w, j as nat) % m;
    let zp = zero_padded(c, s);
    lemma_dft_zero_tail(c, s, w, j, s as int);
    lemma_dft_pointwise(zp, c, w, j, c.len() as int);
    lemma_horner_tail(c, w, j, 0);
    vstd::arithmetic::power::lemma_pow0(w);
    vstd::arithmetic::div_mod::lemma_small_mod(1, MODULUS as nat);
    assert((0 * j) as nat == 0nat);
    assert(dft_sum(c, w, j, 0) == 0);
    assert(dft(zp, w, j) == dft_sum(c, w, j, c.len() as int));
    assert(eval_suffix(c, x, 0) % m == eval_suffix(c, x, 0)) by {
        if c.len() == 0 {
            vstd::arithmetic::div_mod::lemma_small_mod(0, MODULUS as nat);
        } else {
            vstd::arithmetic::div_mod::lemma_mod_twice(
                eval_suffix(c, x, 1) * x + c[0].0, m);
        }
    }
    assert((dft_sum(c, w, j, 0) + (pow(w, (0 * j) as nat) % m) * eval_suffix(c, x, 0)) % m
        == eval_suffix(c, x, 0) % m) by {
        assert(pow(w, (0 * j) as nat) % m == 1);
        assert(0 + 1 * eval_suffix(c, x, 0) == eval_suffix(c, x, 0));
    }
}

pub fn lde(coeffs: &Vec<Fp>, blowup_log2: u32) -> (r: Vec<Fp>)
    requires
        coeffs@.len() >= 1,
        all_canonical(coeffs@),
        spec_next_pow2(coeffs@.len() as nat) * pow2(blowup_log2 as nat) <= 0x1_0000_0000,
        spec_next_pow2(coeffs@.len() as nat) * pow2(blowup_log2 as nat) <= usize::MAX / 2,
    ensures
        r@.len() == spec_next_pow2(coeffs@.len() as nat) * pow2(blowup_log2 as nat),
        all_canonical(r@),
        fft_root_ok(spec_root_of(r@.len() as nat), r@.len() as int) ==> forall|i: int|
            0 <= i < r@.len() ==> (#[trigger] r@[i]).0
                == dft(zero_padded(coeffs@, r@.len() as nat),
                    spec_root_of(r@.len() as nat), i),
        fft_root_ok(spec_root_of(r@.len() as nat), r@.len() as int) ==> forall|i: int|
            0 <= i < r@.len() ==> (#[trigger] r@[i]).0
                == poly_eval_spec(coeffs@,
                    pow(spec_root_of(r@.len() as nat), i as nat) % MODULUS as int),
{
    proof {
        lemma_spec_next_pow2(coeffs@.len() as nat);
        vstd::arithmetic::power2::lemma_pow2_pos(blowup_log2 as nat);
        assert(spec_next_pow2(coeffs@.len() as nat) * 1
            <= spec_next_pow2(coeffs@.len() as nat) * pow2(blowup_log2 as nat))
            by (nonlinear_arith)
            requires
                spec_next_pow2(coeffs@.len() as nat) >= 0,
                1 <= pow2(blowup_log2 as nat);
    }
    let n = pow2_above(coeffs.len());
    let size = shl_pow2(n, blowup_log2);
    let mut a: Vec<Fp> = Vec::new();
    let mut i: usize = 0;
    while i < size
        invariant
            a@.len() == i,
            i <= size,
            all_canonical(a@),
            forall|q: int| 0 <= q < i ==> a@[q] == Fp(0u64),
        decreases size - i,
    {
        a.push(Fp::zero());
        i = i + 1;
    }
    let mut c: usize = 0;
    while c < coeffs.len()
        invariant
            a@.len() == size,
            c <= coeffs@.len() <= size,
            all_canonical(coeffs@),
            all_canonical(a@),
            forall|q: int| 0 <= q < c ==> a@[q] == coeffs@[q],
            forall|q: int| c <= q < size ==> a@[q] == Fp(0u64),
        decreases coeffs@.len() - c,
    {
        let ghost before = a@;
        a[c] = coeffs[c];
        proof {
            assert(forall|q: int| 0 <= q < size && q != c ==> a@[q] == before[q]);
        }
        c = c + 1;
    }
    proof {
        assert(a@ =~= zero_padded(coeffs@, size as nat));
    }
    let k = log2_of_pow2(size);
    proof {
        lemma_log2_le_32(size as nat);
    }
    let w = root_of_unity(k);
    let ghost pre = a@;
    fft_in_place(&mut a, w);
    proof {
        if fft_root_ok(spec_root_of(size as nat), size as int) {
            vstd::arithmetic::div_mod::lemma_mod_bound(
                pow(7, (((MODULUS - 1) as u64) >> (spec_log2(size as nat) as u64)) as nat),
                MODULUS as int);
            assert forall|i2: int| 0 <= i2 < size implies (#[trigger] a@[i2]).0
                == poly_eval_spec(coeffs@,
                    pow(spec_root_of(size as nat), i2 as nat) % MODULUS as int) by {
                assert(a@[i2].0 == dft(pre, w.0 as int, i2));
                lemma_dft_is_poly_eval(coeffs@, size as nat,
                    spec_root_of(size as nat), i2);
            }
        }
    }
    a
}

/// `next_pow2` with its exact specification.
pub fn pow2_above(x: usize) -> (r: usize)
    requires
        x >= 1,
        2 * x - 1 <= usize::MAX,
    ensures
        r == spec_next_pow2(x as nat),
        is_pow2(r as nat),
        x <= r < 2 * x,
{
    let r = next_pow2(x);
    proof {
        lemma_spec_next_pow2(x as nat);
        lemma_pow2_window_unique(r as nat, spec_next_pow2(x as nat), x as nat);
    }
    r
}

/// Every power of two satisfies the power-of-two predicate.
pub proof fn lemma_is_pow2_pow2(k: nat)
    ensures
        is_pow2(pow2(k)),
    decreases k,
{
    if k == 0 {
        vstd::arithmetic::power2::lemma2_to64();
    } else {
        lemma_is_pow2_pow2((k - 1) as nat);
        vstd::arithmetic::power2::lemma_pow2_unfold(k);
        vstd::arithmetic::power2::lemma_pow2_pos((k - 1) as nat);
    }
}

/// Multiply a power of two by 2^blowup.
pub fn shl_pow2(n: usize, blowup_log2: u32) -> (r: usize)
    requires
        is_pow2(n as nat),
        n * pow2(blowup_log2 as nat) <= usize::MAX,
    ensures
        r == n * pow2(blowup_log2 as nat),
        is_pow2(r as nat),
{
    let mut r = n;
    let mut b: u32 = 0;
    proof {
        vstd::arithmetic::power2::lemma2_to64();
        assert(r == n * pow2(0));
    }
    while b < blowup_log2
        invariant
            is_pow2(r as nat),
            b <= blowup_log2,
            r == n * pow2(b as nat),
            n * pow2(blowup_log2 as nat) <= usize::MAX,
            n >= 1,
        decreases blowup_log2 - b,
    {
        proof {
            vstd::arithmetic::power2::lemma_pow2_unfold((b + 1) as nat);
            if (b + 1) < blowup_log2 {
                vstd::arithmetic::power2::lemma_pow2_strictly_increases(
                    (b + 1) as nat, blowup_log2 as nat);
            }
            assert(n * (2 * pow2(b as nat)) == 2 * (n * pow2(b as nat))) by (nonlinear_arith);
            assert(n * pow2((b + 1) as nat) <= n * pow2(blowup_log2 as nat)) by (nonlinear_arith)
                requires n >= 1, pow2((b + 1) as nat) <= pow2(blowup_log2 as nat);
        }
        r = r * 2;
        b = b + 1;
    }
    r
}

/// A power of two at most 2^32 has exponent at most 32.
proof fn lemma_log2_le_32(size: nat)
    requires
        is_pow2(size),
        size <= 0x1_0000_0000,
    ensures
        spec_log2(size) <= 32,
{
    lemma_pow2_log2(size);
    if spec_log2(size) > 32 {
        vstd::arithmetic::power2::lemma_pow2_strictly_increases(32, spec_log2(size));
        vstd::arithmetic::power2::lemma2_to64();
        vstd::arithmetic::power2::lemma2_to64_rest();
    }
}

/// Base evaluations padded to a power-of-two length by replicating the last
/// value.
pub open spec fn padded_last(base: Seq<Fp>, nb: nat) -> Seq<Fp> {
    Seq::new(nb, |i: int| if i < base.len() { base[i] } else { base[base.len() - 1] })
}

/// The interpolating coefficients of the padded base evaluations — their
/// inverse transform at the inverse base root — zero-padded to the extended
/// length `s`.
pub open spec fn lde_coeffs(base: Seq<Fp>, nb: nat, s: nat) -> Seq<Fp> {
    Seq::new(s, |q: int| if q < nb {
        Fp(intt_val(padded_last(base, nb), inv_val(spec_root_of(nb)), q) as u64)
    } else {
        Fp(0u64)
    })
}

/// Low-degree extension from base-domain evaluations: pad the evaluations to
/// a power of two by replicating the last value, inverse-transform to
/// coefficients, zero-pad to the extended size, transform forward.
pub fn lde_from_evals(base_evals: &Vec<Fp>, blowup_log2: u32) -> (r: Vec<Fp>)
    requires
        base_evals@.len() >= 1,
        all_canonical(base_evals@),
        spec_next_pow2(base_evals@.len() as nat) * pow2(blowup_log2 as nat) <= 0x1_0000_0000,
        spec_next_pow2(base_evals@.len() as nat) * pow2(blowup_log2 as nat) <= usize::MAX / 2,
    ensures
        r@.len() == spec_next_pow2(base_evals@.len() as nat) * pow2(blowup_log2 as nat),
        all_canonical(r@),
        (fft_root_ok(inv_val(spec_root_of(spec_next_pow2(base_evals@.len() as nat))),
                spec_next_pow2(base_evals@.len() as nat) as int)
            && fft_root_ok(spec_root_of(r@.len() as nat), r@.len() as int))
            ==> forall|i: int| 0 <= i < r@.len() ==> (#[trigger] r@[i]).0
                == dft(lde_coeffs(base_evals@,
                        spec_next_pow2(base_evals@.len() as nat), r@.len() as nat),
                    spec_root_of(r@.len() as nat), i),
{
    let count = base_evals.len();
    proof {
        lemma_spec_next_pow2(count as nat);
        vstd::arithmetic::power2::lemma_pow2_pos(blowup_log2 as nat);
        assert(spec_next_pow2(count as nat) * 1
            <= spec_next_pow2(count as nat) * pow2(blowup_log2 as nat))
            by (nonlinear_arith)
            requires
                spec_next_pow2(count as nat) >= 0,
                1 <= pow2(blowup_log2 as nat);
    }
    let n_base = pow2_above(count);
    let ext_size = shl_pow2(n_base, blowup_log2);
    let ghost nb = n_base as nat;
    let ghost wbi = inv_val(spec_root_of(nb));
    // copy and pad the base evaluations
    let mut evals: Vec<Fp> = Vec::new();
    let mut i: usize = 0;
    while i < n_base
        invariant
            evals@.len() == i,
            i <= n_base,
            count == base_evals@.len() >= 1,
            all_canonical(base_evals@),
            all_canonical(evals@),
            forall|q: int| 0 <= q < i ==> evals@[q]
                == padded_last(base_evals@, n_base as nat)[q],
        decreases n_base - i,
    {
        if i < count {
            evals.push(base_evals[i]);
        } else {
            evals.push(base_evals[count - 1]);
        }
        i = i + 1;
    }
    proof {
        assert(evals@ =~= padded_last(base_evals@, nb));
    }
    // inverse transform on the base domain
    let k_base = log2_of_pow2(n_base);
    proof {
        lemma_log2_le_32(n_base as nat);
    }
    let w_base = root_of_unity(k_base);
    ifft_in_place(&mut evals, w_base);
    proof {
        assert(inv_val(w_base.0 as int) == wbi);
    }
    // zero-pad the coefficients to the extended size
    let ghost ldec = lde_coeffs(base_evals@, nb, ext_size as nat);
    let mut coeffs_ext: Vec<Fp> = Vec::new();
    let mut j: usize = 0;
    while j < n_base
        invariant
            coeffs_ext@.len() == j,
            j <= n_base,
            evals@.len() == n_base,
            all_canonical(evals@),
            all_canonical(coeffs_ext@),
            forall|q: int| 0 <= q < j ==> coeffs_ext@[q] == evals@[q],
        decreases n_base - j,
    {
        coeffs_ext.push(evals[j]);
        j = j + 1;
    }
    while j < ext_size
        invariant
            coeffs_ext@.len() == j,
            n_base <= j <= ext_size,
            evals@.len() == n_base,
            all_canonical(coeffs_ext@),
            forall|q: int| 0 <= q < n_base ==> coeffs_ext@[q] == evals@[q],
            forall|q: int| n_base <= q < j ==> coeffs_ext@[q] == Fp(0u64),
        decreases ext_size - j,
    {
        coeffs_ext.push(Fp::zero());
        j = j + 1;
    }
    // under the root-order facts, the vector now holds the interpolating
    // coefficients of the padded base evaluations, zero-padded
    proof {
        if fft_root_ok(wbi, n_base as int) {
            assert forall|q: int| 0 <= q < ext_size implies
                coeffs_ext@[q].0 == ldec[q].0 by {
                if q < n_base {
                    assert(evals@[q].0 == intt_val(padded_last(base_evals@, nb), wbi, q));
                    vstd::arithmetic::div_mod::lemma_mod_bound(
                        dft(padded_last(base_evals@, nb), wbi, q)
                            * inv_val(n_base as int % MODULUS as int),
                        MODULUS as int);
                }
            }
        }
    }
    // forward transform on the extended domain
    let k_ext = log2_of_pow2(ext_size);
    proof {
        lemma_log2_le_32(ext_size as nat);
    }
    let w_ext = root_of_unity(k_ext);
    let ghost pre = coeffs_ext@;
    fft_in_place(&mut coeffs_ext, w_ext);
    proof {
        if fft_root_ok(wbi, n_base as int)
            && fft_root_ok(spec_root_of(ext_size as nat), ext_size as int) {
            assert forall|i2: int| 0 <= i2 < ext_size implies
                (#[trigger] coeffs_ext@[i2]).0
                    == dft(ldec, spec_root_of(ext_size as nat), i2) by {
                assert(coeffs_ext@[i2].0 == dft(pre, w_ext.0 as int, i2));
                lemma_dft_pointwise(pre, ldec, w_ext.0 as int, i2, ext_size as int);
            }
        }
    }
    coeffs_ext
}

/// Evaluations of z(x) = x^base_size - 1 at the `domain_size` points
/// 1, w, w^2, ... of the radix-2 domain of size `domain_size`.
pub fn vanishing_on_extended(domain_size: usize, base_size: usize) -> (r: Vec<Fp>)
    requires
        is_pow2(domain_size as nat),
        domain_size <= 0x1_0000_0000,
    ensures
        r@.len() == domain_size,
        forall|i: int|
            0 <= i < domain_size ==> (#[trigger] r@[i]).0
                == (pow(pow(spec_root_of(domain_size as nat), i as nat) % MODULUS as int,
                        base_size as nat) - 1) % MODULUS as int,
        all_canonical(r@),
{
    proof {
        lemma_log2_le_32(domain_size as nat);
    }
    let k = log2_of_pow2(domain_size);
    let w = root_of_unity(k);
    let mut evals: Vec<Fp> = Vec::new();
    let mut x = Fp::one();
    let mut i: usize = 0;
    proof {
        vstd::arithmetic::power::lemma_pow0(w.0 as int);
        vstd::arithmetic::div_mod::lemma_small_mod(1, MODULUS as nat);
    }
    while i < domain_size
        invariant
            evals@.len() == i,
            i <= domain_size,
            x.canonical(),
            w.canonical(),
            w.0 == spec_root_of(domain_size as nat),
            x.0 == pow(w.0 as int, i as nat) % MODULUS as int,
            forall|q: int|
                0 <= q < i ==> (#[trigger] evals@[q]).0
                    == (pow(pow(spec_root_of(domain_size as nat), q as nat) % MODULUS as int,
                            base_size as nat) - 1) % MODULUS as int,
            all_canonical(evals@),
        decreases domain_size - i,
    {
        let v = x.pow(base_size as u128).sub(Fp::one());
        evals.push(v);
        proof {
            lemma_pow_succ(w.0 as int, i as nat);
        }
        x = x.mul(w);
        i = i + 1;
    }
    evals
}

/// One more power: pow(b, i+1) % p == ((pow(b, i) % p) * b) % p.
proof fn lemma_pow_succ(b: int, i: nat)
    requires
        0 <= b,
    ensures
        pow(b, i + 1) % MODULUS as int
            == ((pow(b, i) % MODULUS as int) * b) % MODULUS as int,
{
    let m = MODULUS as int;
    vstd::arithmetic::power::lemma_pow1(b);
    vstd::arithmetic::power::lemma_pow_adds(b, i, 1);
    assert(pow(b, i + 1) == pow(b, i) * b);
    vstd::arithmetic::div_mod::lemma_mul_mod_noop_general(pow(b, i), b, m);
}

/// Evaluations of z(x) = x^size - 1 on the radix-2 domain of size `size`.
pub fn vanishing_poly_evals(size: usize) -> (r: Vec<Fp>)
    requires
        is_pow2(size as nat),
        size <= 0x1_0000_0000,
    ensures
        r@.len() == size,
        forall|i: int|
            0 <= i < size ==> (#[trigger] r@[i]).0
                == (pow(pow(spec_root_of(size as nat), i as nat) % MODULUS as int,
                        size as nat) - 1) % MODULUS as int,
        all_canonical(r@),
{
    vanishing_on_extended(size, size)
}

/// Horner evaluation of a small polynomial at every point 1, w, w^2, ... of
/// the radix-2 domain of size `domain_size`.
pub fn eval_poly_on_domain(coeffs: &Vec<Fp>, domain_size: usize) -> (r: Vec<Fp>)
    requires
        is_pow2(domain_size as nat),
        domain_size <= 0x1_0000_0000,
        all_canonical(coeffs@),
    ensures
        r@.len() == domain_size,
        forall|i: int|
            0 <= i < domain_size ==> (#[trigger] r@[i]).0
                == poly_eval_spec(coeffs@,
                    pow(spec_root_of(domain_size as nat), i as nat) % MODULUS as int),
        all_canonical(r@),
{
    proof {
        lemma_log2_le_32(domain_size as nat);
    }
    let k = log2_of_pow2(domain_size);
    let w = root_of_unity(k);
    let mut out: Vec<Fp> = Vec::new();
    let mut x = Fp::one();
    let mut i: usize = 0;
    proof {
        vstd::arithmetic::power::lemma_pow0(w.0 as int);
        vstd::arithmetic::div_mod::lemma_small_mod(1, MODULUS as nat);
    }
    while i < domain_size
        invariant
            out@.len() == i,
            i <= domain_size,
            x.canonical(),
            w.canonical(),
            all_canonical(coeffs@),
            w.0 == spec_root_of(domain_size as nat),
            x.0 == pow(w.0 as int, i as nat) % MODULUS as int,
            forall|q: int|
                0 <= q < i ==> (#[trigger] out@[q]).0
                    == poly_eval_spec(coeffs@,
                        pow(spec_root_of(domain_size as nat), q as nat) % MODULUS as int),
            all_canonical(out@),
        decreases domain_size - i,
    {
        let v = horner_eval(coeffs, x);
        out.push(v);
        proof {
            lemma_pow_succ(w.0 as int, i as nat);
        }
        x = x.mul(w);
        i = i + 1;
    }
    out
}

} // verus!
