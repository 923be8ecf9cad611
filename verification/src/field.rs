//! The prime field of order p = 2^64 - 2^32 + 1 (the Goldilocks field),
//! with canonical representatives in [0, p), exponentiation, inversion via
//! Fermat's little theorem, roots of unity and bit reversal.

use vstd::prelude::*;
use vstd::arithmetic::power::pow;
use vstd::calc;

verus! {

/// The Goldilocks prime modulus, 2^64 - 2^32 + 1.
pub const MODULUS: u64 = 0xFFFF_FFFF_0000_0001;

/// A field element; the wrapped word is always a canonical representative.
#[derive(Clone, Copy, PartialEq, Eq, Structural, Debug)]
pub struct Fp(pub u64);

impl Fp {
    /// A stored element is canonical: strictly below the modulus.
    pub open spec fn canonical(self) -> bool {
        self.0 < MODULUS
    }

    pub fn new(x: u64) -> (r: Self)
        ensures
            r.0 == x as int % MODULUS as int,
            r.canonical(),
    {
        Fp(x % MODULUS)
    }

    pub fn zero() -> (r: Self)
        ensures
            r.0 == 0,
            r.canonical(),
    {
        Fp(0)
    }

    pub fn one() -> (r: Self)
        ensures
            r.0 == 1,
            r.canonical(),
    {
        Fp(1)
    }

    pub fn from_u128(x: u128) -> (r: Self)
        ensures
            r.0 == x as int % MODULUS as int,
            r.canonical(),
    {
        Fp(reduce_u128(x))
    }

    pub fn to_u64(self) -> (r: u64)
        ensures
            r == self.0,
    {
        self.0
    }

    /// Field addition with one conditional subtraction.
    pub fn add(self, rhs: Self) -> (r: Self)
        requires
            self.canonical(),
            rhs.canonical(),
        ensures
            r.0 == (self.0 + rhs.0) % MODULUS as int,
            r.canonical(),
    {
        let s: u128 = self.0 as u128 + rhs.0 as u128;
        let m: u128 = MODULUS as u128;
        if s >= m {
            proof {
                vstd::arithmetic::div_mod::lemma_mod_sub_multiples_vanish(
                    self.0 + rhs.0, MODULUS as int);
                vstd::arithmetic::div_mod::lemma_small_mod(
                    (self.0 + rhs.0 - MODULUS) as nat, MODULUS as nat);
            }
            Fp((s - m) as u64)
        } else {
            proof {
                vstd::arithmetic::div_mod::lemma_small_mod(
                    (self.0 + rhs.0) as nat, MODULUS as nat);
            }
            Fp(s as u64)
        }
    }

    /// Field subtraction with one conditional addition of the modulus.
    pub fn sub(self, rhs: Self) -> (r: Self)
        requires
            self.canonical(),
            rhs.canonical(),
        ensures
            r.0 == (self.0 - rhs.0) % MODULUS as int,
            r.canonical(),
    {
        if self.0 >= rhs.0 {
            proof {
                vstd::arithmetic::div_mod::lemma_small_mod(
                    (self.0 - rhs.0) as nat, MODULUS as nat);
            }
            Fp(self.0 - rhs.0)
        } else {
            proof {
                vstd::arithmetic::div_mod::lemma_mod_add_multiples_vanish(
                    self.0 - rhs.0, MODULUS as int);
                vstd::arithmetic::div_mod::lemma_small_mod(
                    (self.0 - rhs.0 + MODULUS) as nat, MODULUS as nat);
            }
            Fp(MODULUS - (rhs.0 - self.0))
        }
    }

    /// Field multiplication: full 128-bit product, then reduction.
    pub fn mul(self, rhs: Self) -> (r: Self)
        ensures
            r.0 == (self.0 * rhs.0) % MODULUS as int,
            r.canonical(),
    {
        proof {
            vstd::arithmetic::mul::lemma_mul_upper_bound(
                self.0 as int, u64::MAX as int, rhs.0 as int, u64::MAX as int);
        }
        let prod: u128 = (self.0 as u128) * (rhs.0 as u128);
        Fp(reduce_u128(prod))
    }

    /// Additive inverse.
    pub fn neg(self) -> (r: Self)
        requires
            self.canonical(),
        ensures
            r.0 == (0 - self.0) % MODULUS as int,
            r.canonical(),
    {
        if self.0 == 0 {
            self
        } else {
            proof {
                vstd::arithmetic::div_mod::lemma_mod_add_multiples_vanish(
                    0 - self.0, MODULUS as int);
                vstd::arithmetic::div_mod::lemma_small_mod(
                    (MODULUS - self.0) as nat, MODULUS as nat);
            }
            Fp(MODULUS - self.0)
        }
    }

    /// Right-to-left square-and-multiply exponentiation.
    pub fn pow(self, e: u128) -> (r: Self)
        requires
            self.canonical(),
        ensures
            r.0 == pow(self.0 as int, e as nat) % MODULUS as int,
            r.canonical(),
    {
        let mut base = self;
        let mut acc = Fp(1);
        let mut rem: u128 = e;
        proof {
            lemma_pow_mod_bound(self.0 as int, e as nat);
        }
        while rem > 0
            invariant
                base.canonical(),
                acc.canonical(),
                (acc.0 * pow(base.0 as int, rem as nat)) % MODULUS as int
                    == pow(self.0 as int, e as nat) % MODULUS as int,
            decreases rem,
        {
            let ghost acc0 = acc;
            let ghost base0 = base;
            let ghost rem0 = rem;
            if rem & 1 == 1 {
                acc = acc.mul(base);
            }
            base = base.mul(base);
            rem = rem >> 1;
            proof {
                assert(rem0 >> 1 == rem0 / 2) by (bit_vector);
                assert((rem0 & 1 == 1) == (rem0 % 2 == 1)) by (bit_vector);
                lemma_pow_step(acc0.0 as int, base0.0 as int, rem0 as nat,
                    self.0 as int, e as nat);
                if rem0 % 2 == 1 {
                    assert(acc.0 == (acc0.0 * base0.0) % MODULUS as int);
                } else {
                    assert(acc == acc0);
                }
            }
        }
        proof {
            vstd::arithmetic::power::lemma_pow0(base.0 as int);
            vstd::arithmetic::div_mod::lemma_small_mod(acc.0 as nat, MODULUS as nat);
        }
        acc
    }

    /// Multiplicative inverse by Fermat's little theorem: x^(p-2).
    /// On zero it returns zero, deterministically.
    pub fn inv(self) -> (r: Self)
        requires
            self.canonical(),
        ensures
            r.0 == pow(self.0 as int, (MODULUS - 2) as nat) % MODULUS as int,
            r.canonical(),
    {
        self.pow((MODULUS - 2) as u128)
    }
}

/// Reduce a 128-bit value modulo p.
fn reduce_u128(x: u128) -> (r: u64)
    ensures
        r == x as int % MODULUS as int,
        r < MODULUS,
{
    (x % (MODULUS as u128)) as u64
}

/// The exponent step of square-and-multiply: consuming the low bit of the
/// remaining exponent preserves `acc * base^rem == x^e (mod p)`.
proof fn lemma_pow_step(a: int, b: int, rem: nat, x: int, e: nat)
    requires
        0 <= a < MODULUS as int,
        0 <= b < MODULUS as int,
        rem > 0,
        (a * pow(b, rem)) % MODULUS as int == pow(x, e) % MODULUS as int,
    ensures
        rem % 2 == 1 ==> ((((a * b) % MODULUS as int)
            * pow((b * b) % MODULUS as int, rem / 2)) % MODULUS as int
                == pow(x, e) % MODULUS as int),
        rem % 2 == 0 ==> ((a
            * pow((b * b) % MODULUS as int, rem / 2)) % MODULUS as int
                == pow(x, e) % MODULUS as int),
{
    let m = MODULUS as int;
    let h = rem / 2;
    // pow(b, rem) splits into pow(b*b, h) and one factor of b when rem is odd
    vstd::arithmetic::power::lemma_square_is_pow2(b);
    vstd::arithmetic::power::lemma_pow_multiplies(b, 2, h);
    assert(pow(b * b, h) == pow(b, 2 * h)) by {
        assert(pow(b, 2) == b * b);
    }
    vstd::arithmetic::power::lemma_pow_mod_noop(b * b, h, m);
    if rem % 2 == 1 {
        assert(rem == 2 * h + 1);
        assert(pow(b, rem) == pow(b, 2 * h) * b) by {
            vstd::arithmetic::power::lemma_pow_adds(b, (2 * h) as nat, 1);
            vstd::arithmetic::power::lemma_pow1(b);
        }
        calc! {
            (==)
            ((((a * b) % m) * pow((b * b) % m, h)) % m); {
                vstd::arithmetic::div_mod::lemma_mul_mod_noop_general(
                    a * b, pow((b * b) % m, h), m);
            }
            (((a * b) % m) * (pow((b * b) % m, h) % m)) % m; {
                assert(pow((b * b) % m, h) % m == pow(b * b, h) % m);
            }
            (((a * b) % m) * (pow(b * b, h) % m)) % m; {
                vstd::arithmetic::div_mod::lemma_mul_mod_noop_general(
                    a * b, pow(b * b, h), m);
            }
            ((a * b) * pow(b * b, h)) % m; {
                assert((a * b) * pow(b * b, h) == a * (pow(b, 2 * h) * b))
                    by (nonlinear_arith)
                    requires pow(b * b, h) == pow(b, 2 * h);
            }
            (a * (pow(b, 2 * h) * b)) % m; {
                assert(pow(b, 2 * h) * b == pow(b, rem));
            }
            (a * pow(b, rem)) % m; {}
            pow(x, e) % m;
        }
    } else {
        assert(rem == 2 * h);
        calc! {
            (==)
            ((a * pow((b * b) % m, h)) % m); {
                vstd::arithmetic::div_mod::lemma_mul_mod_noop_general(
                    a, pow((b * b) % m, h), m);
            }
            (a * (pow((b * b) % m, h) % m)) % m; {
                assert(pow((b * b) % m, h) % m == pow(b * b, h) % m);
            }
            (a * (pow(b * b, h) % m)) % m; {
                vstd::arithmetic::div_mod::lemma_mul_mod_noop_general(
                    a, pow(b * b, h), m);
            }
            (a * pow(b, rem)) % m; {}
            pow(x, e) % m;
        }
    }
}

/// The result of any power, taken modulo p, is canonical.
proof fn lemma_pow_mod_bound(b: int, e: nat)
    requires
        b >= 0,
    ensures
        0 <= pow(b, e) % (MODULUS as int) < MODULUS as int,
{
    vstd::arithmetic::power::lemma_pow_positive(b + 1, e);
    vstd::arithmetic::div_mod::lemma_mod_division_less_than_divisor(
        pow(b, e), MODULUS as int);
}

/// The principal 2^power root of unity, derived from the generator 7
/// as 7^((p-1) / 2^power).
pub fn root_of_unity(power: u32) -> (r: Fp)
    requires
        power <= 32,
    ensures
        r.0 == pow(7, (((MODULUS - 1) as u64) >> power) as nat) % MODULUS as int,
        r.canonical(),
{
    let g = Fp::new(7);
    let exp: u64 = (MODULUS - 1) >> power;
    proof {
        vstd::arithmetic::div_mod::lemma_small_mod(7, MODULUS as nat);
    }
    g.pow(exp as u128)
}

/// Adding then subtracting the same element is the identity:
/// `(a + b) - b == a`, stated over the contracts of `add` and `sub`.
pub proof fn lemma_add_sub_cancel(a: Fp, b: Fp)
    requires
        a.canonical(),
        b.canonical(),
    ensures
        ((a.0 + b.0) % MODULUS as int - b.0) % MODULUS as int == a.0,
{
    let m = MODULUS as int;
    vstd::arithmetic::div_mod::lemma_small_mod(b.0 as nat, MODULUS as nat);
    vstd::arithmetic::div_mod::lemma_sub_mod_noop(a.0 + b.0, b.0 as int, m);
    vstd::arithmetic::div_mod::lemma_small_mod(a.0 as nat, MODULUS as nat);
}

/// The additive inverse cancels: `(-a) + a == 0`, stated over the
/// contracts of `neg` and `add`.
pub proof fn lemma_neg_add_cancel(a: Fp)
    requires
        a.canonical(),
    ensures
        ((0 - a.0) % MODULUS as int + a.0) % MODULUS as int == 0,
{
    let m = MODULUS as int;
    vstd::arithmetic::div_mod::lemma_small_mod(a.0 as nat, MODULUS as nat);
    vstd::arithmetic::div_mod::lemma_add_mod_noop(0 - a.0, a.0 as int, m);
    vstd::arithmetic::div_mod::lemma_mod_self_0(m);
}

/// Whenever an element's claimed inverse does invert it, multiplying and
/// then dividing cancels: `(a * b) * binv == a` when `b * binv == 1`.
/// That `inv(b)` satisfies `b * inv(b) == 1` for every nonzero b is
/// Fermat's little theorem, which the tests exercise.
pub proof fn lemma_mul_inv_cancel(a: Fp, b: Fp, binv: Fp)
    requires
        a.canonical(),
        b.canonical(),
        binv.canonical(),
        (b.0 * binv.0) % MODULUS as int == 1,
    ensures
        (((a.0 * b.0) % MODULUS as int) * binv.0) % MODULUS as int == a.0,
{
    let m = MODULUS as int;
    calc! {
        (==)
        ((((a.0 * b.0) % m) * binv.0) % m); {
            vstd::arithmetic::div_mod::lemma_mul_mod_noop_general(
                a.0 * b.0, binv.0 as int, m);
        }
        ((a.0 * b.0) * binv.0) % m; {
            assert((a.0 * b.0) * binv.0 == a.0 * (b.0 * binv.0)) by (nonlinear_arith);
        }
        (a.0 * (b.0 * binv.0)) % m; {
            vstd::arithmetic::div_mod::lemma_mul_mod_noop_general(
                a.0 as int, b.0 * binv.0, m);
        }
        (a.0 * ((b.0 * binv.0) % m)) % m; {}
        (a.0 * 1) % m; {
            vstd::arithmetic::div_mod::lemma_small_mod(a.0 as nat, MODULUS as nat);
        }
        (a.0 as int);
    }
}

/// Multiplication of reduced inputs agrees with wide reduction:
/// `Fp::new(x).mul(Fp::new(y)).0 == (x * y) % p` for all 64-bit x, y.
pub proof fn lemma_mul_matches_wide_reduction(x: u64, y: u64)
    ensures
        ((x as int % MODULUS as int) * (y as int % MODULUS as int)) % MODULUS as int
            == (x * y) % MODULUS as int,
{
    vstd::arithmetic::div_mod::lemma_mul_mod_noop_general(
        x as int, y as int, MODULUS as int);
}

/// What `bit_reverse` computes: the low `bits` bits of `x`, reversed,
/// so bit 0 of `x` lands at position `bits - 1` of the result.
pub open spec fn rev_bits(x: nat, bits: nat) -> nat
    decreases bits,
{
    if bits == 0 {
        0
    } else {
        rev_bits(x / 2, (bits - 1) as nat)
            + (x % 2) * vstd::arithmetic::power2::pow2((bits - 1) as nat)
    }
}

/// Reversal of `bits + 1` bits appends bit number `bits` of `x` at the bottom.
proof fn lemma_rev_bits_unfold_high(x: nat, bits: nat)
    ensures
        rev_bits(x, bits + 1) == 2 * rev_bits(x, bits)
            + (x / vstd::arithmetic::power2::pow2(bits)) % 2,
    decreases bits,
{
    vstd::arithmetic::power2::lemma_pow2_pos(bits);
    if bits == 0 {
        assert(vstd::arithmetic::power2::pow2(0) == 1) by {
            vstd::arithmetic::power2::lemma2_to64();
        }
        assert(rev_bits(x, 0) == 0);
        assert(rev_bits(x / 2, 0) == 0);
    } else {
        let p2l = vstd::arithmetic::power2::pow2((bits - 1) as nat);
        let p2h = vstd::arithmetic::power2::pow2(bits);
        lemma_rev_bits_unfold_high(x / 2, (bits - 1) as nat);
        assert(p2h == 2 * p2l) by {
            vstd::arithmetic::power2::lemma_pow2_unfold(bits);
        }
        vstd::arithmetic::div_mod::lemma_div_denominator(x as int, 2, p2l as int);
        assert((x / 2) / p2l == x / p2h);
        assert(rev_bits(x, bits + 1) == rev_bits(x / 2, bits) + (x % 2) * p2h);
        assert(rev_bits(x / 2, bits)
            == 2 * rev_bits(x / 2, (bits - 1) as nat) + (x / p2h) % 2);
        assert(rev_bits(x, bits) == rev_bits(x / 2, (bits - 1) as nat) + (x % 2) * p2l);
        assert(2 * ((x % 2) * p2l) == (x % 2) * p2h) by (nonlinear_arith)
            requires p2h == 2 * p2l;
    }
}

/// The reversal of `bits` bits is below 2^bits.
pub proof fn lemma_rev_bits_bound(x: nat, bits: nat)
    ensures
        rev_bits(x, bits) < vstd::arithmetic::power2::pow2(bits),
    decreases bits,
{
    if bits == 0 {
        assert(vstd::arithmetic::power2::pow2(0) == 1) by {
            vstd::arithmetic::power2::lemma2_to64();
        }
    } else {
        let p2l = vstd::arithmetic::power2::pow2((bits - 1) as nat);
        lemma_rev_bits_bound(x / 2, (bits - 1) as nat);
        vstd::arithmetic::power2::lemma_pow2_unfold(bits);
        assert((x % 2) * p2l <= p2l) by (nonlinear_arith)
            requires p2l >= 0, x % 2 <= 1;
    }
}

/// Reverse the low `bits` bits of `x`.
pub fn bit_reverse(x: usize, bits: u32) -> (r: usize)
    requires
        vstd::arithmetic::power2::pow2(bits as nat) <= usize::MAX as nat + 1,
    ensures
        r == rev_bits(x as nat, bits as nat),
        r < vstd::arithmetic::power2::pow2(bits as nat),
{
    let mut y: usize = 0;
    let mut cur: usize = x;
    let mut i: u32 = 0;
    proof {
        vstd::arithmetic::power2::lemma2_to64();
    }
    while i < bits
        invariant
            i <= bits,
            vstd::arithmetic::power2::pow2(bits as nat) <= usize::MAX as nat + 1,
            y == rev_bits(x as nat, i as nat),
            y < vstd::arithmetic::power2::pow2(i as nat),
            cur == x as nat / vstd::arithmetic::power2::pow2(i as nat),
        decreases bits - i,
    {
        proof {
            lemma_rev_bits_unfold_high(x as nat, i as nat);
            vstd::arithmetic::power2::lemma_pow2_unfold((i + 1) as nat);
            vstd::arithmetic::power2::lemma_pow2_pos(i as nat);
            vstd::arithmetic::div_mod::lemma_div_denominator(
                x as int, vstd::arithmetic::power2::pow2(i as nat) as int, 2);
            if i + 1 < bits {
                vstd::arithmetic::power2::lemma_pow2_strictly_increases(
                    (i + 1) as nat, bits as nat);
            }
        }
        y = y * 2 + (cur % 2);
        cur = cur / 2;
        i = i + 1;
    }
    y
}

} // verus!
