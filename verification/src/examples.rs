//! Further example AIRs over the same interface as the Fibonacci AIR: a
//! range check by bit decomposition, a permutation check by running
//! products, and an iterated-hash chain.

use vstd::prelude::*;
use vstd::arithmetic::power2::pow2;
use vstd::bytes::{spec_u64_to_le_bytes, u64_to_le_bytes, u64_from_le_bytes};
use crate::field::{Fp, MODULUS};
use crate::hash::{shake256_384, xof_of, DIGEST_LEN};
use crate::air::{row_bytes_of, row_elem_of, row_to_bytes};
use crate::poly::all_canonical;

verus! {

/// The public input of the range-check AIR.
#[derive(Clone, Copy, PartialEq, Eq, Structural, Debug)]
pub struct RangeCheckPublic {
    pub value: u64,
    pub bits: u32,
}

/// Proves that a value fits in `bits` bits by decomposing it one bit per
/// row. Columns: [accumulator, bit, power of two].
#[derive(Clone)]
pub struct RangeCheckAir {
    pub value: Fp,
    pub bits: usize,
}

/// What `RangeCheckAir::check_row` decides.
pub open spec fn rc_check_row(i: nat, row: Seq<Fp>, next: Option<Seq<Fp>>,
    p: RangeCheckPublic) -> bool {
    &&& (i == 0 ==> row[0].0 == p.value)
    &&& (row[1].0 == 0 || row[1].0 == 1)
    &&& match next {
        Option::Some(nxt) => {
            &&& nxt[0].0 == (((row[0].0 - row[1].0) % MODULUS as int)
                * (vstd::arithmetic::power::pow(2, (MODULUS - 2) as nat) % MODULUS as int))
                % MODULUS as int
            &&& nxt[2].0 == (row[2].0 * 2) % MODULUS as int
        },
        Option::None => row[0].0 == 0,
    }
}

impl RangeCheckAir {
    pub fn new(value: u64, bits: usize) -> (r: Self)
        requires
            bits <= 63,
            value < pow2(bits as nat),
        ensures
            r.value.0 == value,
            r.bits == bits,
            r.value.canonical(),
    {
        proof {
            vstd::arithmetic::power2::lemma2_to64();
            vstd::arithmetic::power2::lemma2_to64_rest();
            if bits < 63 {
                vstd::arithmetic::power2::lemma_pow2_strictly_increases(bits as nat, 63);
            }
            vstd::arithmetic::div_mod::lemma_small_mod(value as nat, MODULUS as nat);
        }
        RangeCheckAir { value: Fp::new(value), bits }
    }

    pub fn id(&self) -> (r: &'static str)
        ensures
            r@ == "range_check_v1"@,
    {
        "range_check_v1"
    }

    pub fn trace_len(&self) -> (r: usize)
        requires
            self.bits < usize::MAX,
        ensures
            r == self.bits + 1,
    {
        self.bits + 1
    }

    pub fn n_cols(&self) -> (r: usize)
        ensures
            r == 3,
    {
        3
    }

    pub fn public_input(&self) -> (r: RangeCheckPublic)
        requires
            self.bits <= u32::MAX,
        ensures
            r.value == self.value.0,
            r.bits == self.bits,
    {
        RangeCheckPublic { value: self.value.to_u64(), bits: self.bits as u32 }
    }

    /// Generate the trace: the accumulator halves (dropping its low bit)
    /// each row, the bit column carries that low bit, the third column the
    /// matching power of two.
    pub fn gen_trace(&self) -> (r: Vec<Vec<Fp>>)
        requires
            self.bits <= 63,
            self.value.0 < pow2(self.bits as nat),
        ensures
            r@.len() == 3,
            r@[0]@.len() == self.bits + 1,
            r@[1]@.len() == self.bits + 1,
            r@[2]@.len() == self.bits + 1,
            forall|i: int| 0 <= i <= self.bits ==> (#[trigger] r@[0]@[i]).0
                == self.value.0 as int / pow2(i as nat) as int,
            forall|i: int| 0 <= i < self.bits ==> (#[trigger] r@[1]@[i]).0
                == (self.value.0 as int / pow2(i as nat) as int) % 2,
            r@[1]@[self.bits as int].0 == 0,
            forall|i: int| 0 <= i < self.bits ==> (#[trigger] r@[2]@[i]).0
                == pow2(i as nat),
            r@[2]@[self.bits as int].0 == 0,
            all_canonical(r@[0]@),
            all_canonical(r@[1]@),
            all_canonical(r@[2]@),
    {
        let n = self.bits + 1;
        let mut acc: Vec<Fp> = Vec::new();
        let mut bit: Vec<Fp> = Vec::new();
        let mut pw: Vec<Fp> = Vec::new();
        let mut remaining: u64 = self.value.to_u64();
        let mut power: u64 = 1;
        let mut i: usize = 0;
        proof {
            vstd::arithmetic::power2::lemma2_to64();
            vstd::arithmetic::power2::lemma2_to64_rest();
        }
        while i < self.bits
            invariant
                acc@.len() == i,
                bit@.len() == i,
                pw@.len() == i,
                i <= self.bits <= 63,
                self.value.0 < pow2(self.bits as nat),
                self.value.canonical(),
                remaining == self.value.0 as int / pow2(i as nat) as int,
                power == pow2(i as nat),
                forall|q: int| 0 <= q < i ==> (#[trigger] acc@[q]).0
                    == self.value.0 as int / pow2(q as nat) as int,
                forall|q: int| 0 <= q < i ==> (#[trigger] bit@[q]).0
                    == (self.value.0 as int / pow2(q as nat) as int) % 2,
                forall|q: int| 0 <= q < i ==> (#[trigger] pw@[q]).0 == pow2(q as nat),
                all_canonical(acc@),
                all_canonical(bit@),
                all_canonical(pw@),
            decreases self.bits - i,
        {
            proof {
                vstd::arithmetic::power2::lemma2_to64();
                vstd::arithmetic::power2::lemma2_to64_rest();
                assert(remaining < MODULUS) by {
                    vstd::arithmetic::power2::lemma_pow2_pos(i as nat);
                    vstd::arithmetic::div_mod::lemma_div_nonincreasing(
                        self.value.0 as int, pow2(i as nat) as int);
                    if (self.bits as nat) < 63 {
                        vstd::arithmetic::power2::lemma_pow2_strictly_increases(
                            self.bits as nat, 63);
                    }
                    vstd::arithmetic::power2::lemma2_to64_rest();
                }
                assert(power < 0x8000_0000_0000_0000u64) by {
                    vstd::arithmetic::power2::lemma2_to64_rest();
                    if (i as nat) < 63 {
                        vstd::arithmetic::power2::lemma_pow2_strictly_increases(
                            i as nat, 63);
                    }
                    assert(i < 63);
                }
                vstd::arithmetic::div_mod::lemma_small_mod(remaining as nat, MODULUS as nat);
                vstd::arithmetic::div_mod::lemma_small_mod((remaining % 2) as nat,
                    MODULUS as nat);
                vstd::arithmetic::div_mod::lemma_small_mod(power as nat, MODULUS as nat);
            }
            acc.push(Fp::new(remaining));
            bit.push(Fp::new(remaining % 2));
            pw.push(Fp::new(power));
            proof {
                vstd::arithmetic::power2::lemma_pow2_unfold((i + 1) as nat);
                vstd::arithmetic::power2::lemma_pow2_pos(i as nat);
                vstd::arithmetic::div_mod::lemma_div_denominator(
                    self.value.0 as int, pow2(i as nat) as int, 2);
            }
            remaining = remaining / 2;
            power = power * 2;
            i = i + 1;
        }
        proof {
            assert(self.value.0 as int / pow2(self.bits as nat) as int == 0) by {
                vstd::arithmetic::power2::lemma_pow2_pos(self.bits as nat);
                vstd::arithmetic::div_mod::lemma_basic_div(
                    self.value.0 as int, pow2(self.bits as nat) as int);
            }
        }
        acc.push(Fp::zero());
        bit.push(Fp::zero());
        pw.push(Fp::zero());
        let mut r: Vec<Vec<Fp>> = Vec::new();
        r.push(acc);
        r.push(bit);
        r.push(pw);
        r
    }

    /// The verifier's row predicate: the first accumulator equals the value,
    /// every bit is boolean, the accumulator halves and the power doubles,
    /// and the final accumulator is zero.
    pub fn check_row(i: usize, row: &[Fp], next: Option<&[Fp]>, pub_inp: &RangeCheckPublic)
        -> (r: bool)
        requires
            row@.len() == 3,
            all_canonical(row@),
            match next {
                Option::Some(nxt) => nxt@.len() == 3 && all_canonical(nxt@),
                Option::None => true,
            },
        ensures
            r == rc_check_row(i as nat, row@, match next {
                Option::Some(nxt) => Option::Some(nxt@),
                Option::None => Option::None,
            }, *pub_inp),
    {
        if i == 0 {
            if row[0].to_u64() != pub_inp.value {
                return false;
            }
        }
        let b = row[1];
        if b.to_u64() != 0 && b.to_u64() != 1 {
            return false;
        }
        match next {
            Option::Some(nxt) => {
                let expected_next = row[0].sub(row[1]).mul(Fp::new(2).inv());
                if nxt[0].to_u64() != expected_next.to_u64() {
                    return false;
                }
                if nxt[2].to_u64() != row[2].mul(Fp::new(2)).to_u64() {
                    return false;
                }
                proof {
                    vstd::arithmetic::div_mod::lemma_small_mod(2, MODULUS as nat);
                }
                true
            },
            Option::None => row[0].to_u64() == 0,
        }
    }

    /// The constraint vector: boundary, booleanity, halving and doubling
    /// transitions, each entry zero exactly when its constraint holds.
    pub fn eval_constraints(&self, i: usize, row: &[Fp], next: Option<&[Fp]>,
        pub_inp: &RangeCheckPublic) -> (r: Vec<Fp>)
        requires
            row@.len() == 3,
            all_canonical(row@),
            match next {
                Option::Some(nxt) => nxt@.len() == 3 && all_canonical(nxt@),
                Option::None => true,
            },
        ensures
            r@.len() == 3,
            r@[1].0 == (row@[1].0 * ((row@[1].0 - 1) % MODULUS as int)) % MODULUS as int,
            match next {
                Option::Some(nxt) => {
                    &&& r@[0].0 == (nxt@[0].0 - (((row@[0].0 - row@[1].0) % MODULUS as int)
                        * (vstd::arithmetic::power::pow(2, (MODULUS - 2) as nat)
                            % MODULUS as int)) % MODULUS as int) % MODULUS as int
                    &&& r@[2].0 == (nxt@[2].0 - (row@[2].0 * 2) % MODULUS as int)
                        % MODULUS as int
                },
                Option::None => {
                    &&& r@[0].0 == row@[0].0
                    &&& r@[2].0 == 0
                },
            },
    {
        let _ = i;
        proof {
            vstd::arithmetic::div_mod::lemma_small_mod(1, MODULUS as nat);
            vstd::arithmetic::div_mod::lemma_small_mod(2, MODULUS as nat);
        }
        let b = row[1];
        let booleanity = b.mul(b.sub(Fp::one()));
        let mut out: Vec<Fp> = Vec::new();
        match next {
            Option::Some(nxt) => {
                let expected_next = row[0].sub(row[1]).mul(Fp::new(2).inv());
                out.push(nxt[0].sub(expected_next));
                out.push(booleanity);
                out.push(nxt[2].sub(row[2].mul(Fp::new(2))));
            },
            Option::None => {
                out.push(row[0]);
                out.push(booleanity);
                out.push(Fp::zero());
            },
        }
        out
    }
}

/// The byte string of a word list: each word as eight little-endian bytes.
pub open spec fn words_bytes(s: Seq<u64>) -> Seq<u8>
    decreases s.len(),
{
    if s.len() == 0 {
        Seq::empty()
    } else {
        words_bytes(s.drop_last()) + spec_u64_to_le_bytes(s.last())
    }
}

/// Encode a word list as little-endian bytes.
pub fn words_to_bytes(s: &Vec<u64>) -> (r: Vec<u8>)
    ensures
        r@ == words_bytes(s@),
{
    let mut v: Vec<u8> = Vec::new();
    let mut i: usize = 0;
    proof {
        assert(s@.take(0) =~= Seq::<u64>::empty());
        assert(v@ =~= words_bytes(s@.take(0)));
    }
    while i < s.len()
        invariant
            i <= s@.len(),
            v@ == words_bytes(s@.take(i as int)),
        decreases s@.len() - i,
    {
        let b = u64_to_le_bytes(s[i]);
        v.extend_from_slice(b.as_slice());
        i = i + 1;
        proof {
            assert(s@.take(i as int).drop_last() =~= s@.take(i - 1));
            assert(s@.take(i as int).last() == s@[i - 1]);
        }
    }
    proof {
        assert(s@.take(s@.len() as int) =~= s@);
    }
    v
}

/// The public input of the permutation AIR: hashes of both word lists.
#[derive(Clone, Debug)]
pub struct PermutationPublic {
    pub input_hash: Vec<u8>,
    pub output_hash: Vec<u8>,
    pub length: u32,
}

/// Proves that one word list is a permutation of another by comparing
/// running products of shifted values. Columns:
/// [input, output, product over input, product over output].
#[derive(Clone)]
pub struct PermutationAir {
    pub input: Vec<u64>,
    pub output: Vec<u64>,
}

/// The running product after `i` factors: each factor is the value plus the
/// fixed challenge 7, all modulo p.
pub open spec fn perm_prod(vals: Seq<u64>, i: nat) -> int
    decreases i,
{
    if i == 0 {
        1
    } else {
        (perm_prod(vals, (i - 1) as nat)
            * ((vals[i - 1] as int % MODULUS as int + 7) % MODULUS as int))
            % MODULUS as int
    }
}

/// What `PermutationAir::check_row` decides.
pub open spec fn perm_check_row(i: nat, row: Seq<Fp>, next: Option<Seq<Fp>>) -> bool {
    &&& (i == 0 ==> row[2].0 == 1 && row[3].0 == 1)
    &&& match next {
        Option::Some(nxt) => {
            &&& nxt[2].0 == (row[2].0 * ((row[0].0 + 7) % MODULUS as int)) % MODULUS as int
            &&& nxt[3].0 == (row[3].0 * ((row[1].0 + 7) % MODULUS as int)) % MODULUS as int
        },
        Option::None => row[2].0 == row[3].0,
    }
}

impl PermutationAir {
    pub fn new(input: Vec<u64>, output: Vec<u64>) -> (r: Self)
        requires
            input@.len() == output@.len(),
        ensures
            r.input@ == input@,
            r.output@ == output@,
    {
        PermutationAir { input, output }
    }

    pub fn id(&self) -> (r: &'static str)
        ensures
            r@ == "permutation_v1"@,
    {
        "permutation_v1"
    }

    pub fn trace_len(&self) -> (r: usize)
        requires
            self.input@.len() < usize::MAX,
        ensures
            r == self.input@.len() + 1,
    {
        self.input.len() + 1
    }

    pub fn n_cols(&self) -> (r: usize)
        ensures
            r == 4,
    {
        4
    }

    /// Hash both word lists into the public input.
    pub fn public_input(&self) -> (r: PermutationPublic)
        requires
            self.input@.len() <= u32::MAX,
        ensures
            r.input_hash@ == xof_of(words_bytes(self.input@), DIGEST_LEN as nat),
            r.output_hash@ == xof_of(words_bytes(self.output@), DIGEST_LEN as nat),
            r.length == self.input@.len(),
    {
        let input_bytes = words_to_bytes(&self.input);
        let output_bytes = words_to_bytes(&self.output);
        PermutationPublic {
            input_hash: shake256_384(input_bytes.as_slice()),
            output_hash: shake256_384(output_bytes.as_slice()),
            length: self.input.len() as u32,
        }
    }

    /// Generate the trace: values in the first two columns, running
    /// products with the fixed challenge in the last two.
    pub fn gen_trace(&self) -> (r: Vec<Vec<Fp>>)
        requires
            self.input@.len() < usize::MAX,
            self.input@.len() == self.output@.len(),
        ensures
            r@.len() == 4,
            r@[0]@.len() == self.input@.len() + 1,
            r@[1]@.len() == self.input@.len() + 1,
            r@[2]@.len() == self.input@.len() + 1,
            r@[3]@.len() == self.input@.len() + 1,
            forall|i: int| 0 <= i < self.input@.len() ==> (#[trigger] r@[0]@[i]).0
                == self.input@[i] as int % MODULUS as int,
            forall|i: int| 0 <= i < self.input@.len() ==> (#[trigger] r@[1]@[i]).0
                == self.output@[i] as int % MODULUS as int,
            r@[0]@[self.input@.len() as int].0 == 0,
            r@[1]@[self.input@.len() as int].0 == 0,
            forall|i: int| 0 <= i <= self.input@.len() ==> (#[trigger] r@[2]@[i]).0
                == perm_prod(self.input@, i as nat),
            forall|i: int| 0 <= i <= self.input@.len() ==> (#[trigger] r@[3]@[i]).0
                == perm_prod(self.output@, i as nat),
            all_canonical(r@[0]@),
            all_canonical(r@[1]@),
            all_canonical(r@[2]@),
            all_canonical(r@[3]@),
    {
        let len = self.input.len();
        let n = len + 1;
        let beta = Fp::new(7);
        let mut input_col: Vec<Fp> = Vec::new();
        let mut output_col: Vec<Fp> = Vec::new();
        let mut prod_in: Vec<Fp> = Vec::new();
        let mut prod_out: Vec<Fp> = Vec::new();
        let mut pi = Fp::one();
        let mut po = Fp::one();
        let mut i: usize = 0;
        while i < len
            invariant
                input_col@.len() == i,
                output_col@.len() == i,
                prod_in@.len() == i,
                prod_out@.len() == i,
                i <= len,
                len == self.input@.len() == self.output@.len(),
                beta.0 == 7,
                pi.canonical(),
                po.canonical(),
                pi.0 == perm_prod(self.input@, i as nat),
                po.0 == perm_prod(self.output@, i as nat),
                forall|q: int| 0 <= q < i ==> (#[trigger] input_col@[q]).0
                    == self.input@[q] as int % MODULUS as int,
                forall|q: int| 0 <= q < i ==> (#[trigger] output_col@[q]).0
                    == self.output@[q] as int % MODULUS as int,
                forall|q: int| 0 <= q < i ==> (#[trigger] prod_in@[q]).0
                    == perm_prod(self.input@, q as nat),
                forall|q: int| 0 <= q < i ==> (#[trigger] prod_out@[q]).0
                    == perm_prod(self.output@, q as nat),
                all_canonical(input_col@),
                all_canonical(output_col@),
                all_canonical(prod_in@),
                all_canonical(prod_out@),
            decreases len - i,
        {
            let iv = Fp::new(self.input[i]);
            let ov = Fp::new(self.output[i]);
            input_col.push(iv);
            output_col.push(ov);
            prod_in.push(pi);
            prod_out.push(po);
            pi = pi.mul(iv.add(beta));
            po = po.mul(ov.add(beta));
            i = i + 1;
        }
        input_col.push(Fp::zero());
        output_col.push(Fp::zero());
        prod_in.push(pi);
        prod_out.push(po);
        let mut r: Vec<Vec<Fp>> = Vec::new();
        r.push(input_col);
        r.push(output_col);
        r.push(prod_in);
        r.push(prod_out);
        r
    }

    /// The verifier's row predicate: products start at one, step by the
    /// shifted value, and agree on the last row.
    pub fn check_row(i: usize, row: &[Fp], next: Option<&[Fp]>,
        pub_inp: &PermutationPublic) -> (r: bool)
        requires
            row@.len() == 4,
            all_canonical(row@),
            match next {
                Option::Some(nxt) => nxt@.len() == 4 && all_canonical(nxt@),
                Option::None => true,
            },
        ensures
            r == perm_check_row(i as nat, row@, match next {
                Option::Some(nxt) => Option::Some(nxt@),
                Option::None => Option::None,
            }),
    {
        let _ = pub_inp;
        if i == 0 {
            if row[2].to_u64() != 1 || row[3].to_u64() != 1 {
                return false;
            }
        }
        match next {
            Option::Some(nxt) => {
                let beta = Fp::new(7);
                proof {
                    vstd::arithmetic::div_mod::lemma_small_mod(7, MODULUS as nat);
                }
                let expected_prod_in = row[2].mul(row[0].add(beta));
                let expected_prod_out = row[3].mul(row[1].add(beta));
                nxt[2].to_u64() == expected_prod_in.to_u64()
                    && nxt[3].to_u64() == expected_prod_out.to_u64()
            },
            Option::None => row[2].to_u64() == row[3].to_u64(),
        }
    }

    /// The constraint vector for a row: product initialisation, product
    /// steps, and final equality.
    pub fn eval_constraints(&self, i: usize, row: &[Fp], next: Option<&[Fp]>,
        pub_inp: &PermutationPublic) -> (r: Vec<Fp>)
        requires
            row@.len() == 4,
            all_canonical(row@),
            match next {
                Option::Some(nxt) => nxt@.len() == 4 && all_canonical(nxt@),
                Option::None => true,
            },
        ensures
            r@.len() == 4,
            r@[0].0 == 0,
            r@[1].0 == 0,
            match next {
                Option::Some(nxt) => {
                    &&& r@[2].0 == (nxt@[2].0
                        - (row@[2].0 * ((row@[0].0 + 7) % MODULUS as int)) % MODULUS as int)
                        % MODULUS as int
                    &&& r@[3].0 == (nxt@[3].0
                        - (row@[3].0 * ((row@[1].0 + 7) % MODULUS as int)) % MODULUS as int)
                        % MODULUS as int
                },
                Option::None => {
                    &&& r@[2].0 == (row@[2].0 - row@[3].0) % MODULUS as int
                    &&& (i == 0 ==> r@[3].0 == (row@[3].0 - 1) % MODULUS as int)
                    &&& (i != 0 ==> r@[3].0 == 0)
                },
            },
    {
        let _ = pub_inp;
        proof {
            vstd::arithmetic::div_mod::lemma_small_mod(7, MODULUS as nat);
            vstd::arithmetic::div_mod::lemma_small_mod(1, MODULUS as nat);
        }
        let mut out: Vec<Fp> = Vec::new();
        out.push(Fp::zero());
        out.push(Fp::zero());
        match next {
            Option::Some(nxt) => {
                let beta = Fp::new(7);
                out.push(nxt[2].sub(row[2].mul(row[0].add(beta))));
                out.push(nxt[3].sub(row[3].mul(row[1].add(beta))));
            },
            Option::None => {
                out.push(row[2].sub(row[3]));
                if i == 0 {
                    out.push(row[3].sub(Fp::one()));
                } else {
                    out.push(Fp::zero());
                }
            },
        }
        out
    }
}

/// The public input of the hash-chain AIR.
#[derive(Clone, Debug)]
pub struct HashChainPublic {
    pub initial: Vec<u8>,
    pub final_hash: Vec<u8>,
    pub iterations: u32,
}

/// Proves an iterated 48-byte hash: each trace row carries the six 64-bit
/// limbs of one chain state.
#[derive(Clone)]
pub struct HashChainAir {
    pub initial: Vec<u8>,
    pub iterations: usize,
}

/// A byte string padded with zeros up to 48 bytes.
pub open spec fn hc_pad(b: Seq<u8>) -> Seq<u8> {
    if b.len() >= 48 {
        b
    } else {
        b + Seq::new((48 - b.len()) as nat, |i: int| 0u8)
    }
}

/// Limb `j` of a byte string: its j-th little-endian 64-bit word reduced
/// into the field, zero where the string is too short.
pub open spec fn hc_limb(b: Seq<u8>, j: int) -> int {
    if 8 * j + 8 <= b.len() {
        row_elem_of(b, j)
    } else {
        0
    }
}

/// The chain state after `i` steps, starting from the padded seed.
pub open spec fn hc_state(initial: Seq<u8>, i: nat) -> Seq<u8>
    decreases i,
{
    if i == 0 {
        hc_pad(initial)
    } else {
        xof_of(hc_state(initial, (i - 1) as nat), DIGEST_LEN as nat)
    }
}

/// The hash chain over the raw (unpadded) seed, as the public input states it.
pub open spec fn hc_iter(initial: Seq<u8>, k: nat) -> Seq<u8>
    decreases k,
{
    if k == 0 {
        initial
    } else {
        xof_of(hc_iter(initial, (k - 1) as nat), DIGEST_LEN as nat)
    }
}

/// Whether a row's limbs agree with a byte string wherever it is long enough.
pub open spec fn hc_boundary_ok(row: Seq<Fp>, bytes: Seq<u8>) -> bool {
    forall|j: int| 0 <= j < 6 && 8 * j + 8 <= bytes.len()
        ==> (#[trigger] row[j]).0 == row_elem_of(bytes, j)
}

/// Whether `nxt` holds the limbs of the hash of `row`'s limbs.
pub open spec fn hc_transition_ok(row: Seq<Fp>, nxt: Seq<Fp>) -> bool {
    forall|j: int| 0 <= j < 6 ==> (#[trigger] nxt[j]).0
        == row_elem_of(xof_of(row_bytes_of(row), DIGEST_LEN as nat), j)
}

/// What `HashChainAir::check_row` decides: limbs of the boundary rows match
/// the public byte strings where those are long enough, and each interior
/// row hashes to the next.
pub open spec fn hc_check_row(i: nat, row: Seq<Fp>, next: Option<Seq<Fp>>,
    initial: Seq<u8>, final_hash: Seq<u8>) -> bool {
    &&& (i == 0 ==> hc_boundary_ok(row, initial))
    &&& match next {
        Option::Some(nxt) => hc_transition_ok(row, nxt),
        Option::None => hc_boundary_ok(row, final_hash),
    }
}

/// Hash the 48 bytes of six limbs and split the digest back into limbs.
pub fn hash_limbs(limbs: &[Fp]) -> (r: Vec<Fp>)
    requires
        limbs@.len() == 6,
    ensures
        r@.len() == 6,
        forall|j: int| 0 <= j < 6 ==> (#[trigger] r@[j]).0
            == row_elem_of(xof_of(row_bytes_of(limbs@), DIGEST_LEN as nat), j),
        all_canonical(r@),
{
    let bytes = row_to_bytes(limbs);
    let hash = shake256_384(bytes.as_slice());
    let mut out: Vec<Fp> = Vec::new();
    let mut j: usize = 0;
    while j < 6
        invariant
            out@.len() == j,
            j <= 6,
            hash@ == xof_of(row_bytes_of(limbs@), DIGEST_LEN as nat),
            hash@.len() == DIGEST_LEN,
            forall|q: int| 0 <= q < j ==> (#[trigger] out@[q]).0 == row_elem_of(hash@, q),
            all_canonical(out@),
        decreases 6 - j,
    {
        let w = u64_from_le_bytes(&hash.as_slice()[8 * j..8 * j + 8]);
        out.push(Fp::new(w));
        j = j + 1;
    }
    out
}

/// Read up to six limbs out of a byte string; absent bytes read as zero.
fn bytes_limbs(b: &[u8]) -> (r: Vec<Fp>)
    ensures
        r@.len() == 6,
        forall|j: int| 0 <= j < 6 ==> (#[trigger] r@[j]).0 == hc_limb(b@, j),
        all_canonical(r@),
{
    let blen: usize = b.len();
    let mut out: Vec<Fp> = Vec::new();
    let mut j: usize = 0;
    while j < 6
        invariant
            out@.len() == j,
            j <= 6,
            blen == b@.len(),
            forall|q: int| 0 <= q < j ==> (#[trigger] out@[q]).0 == hc_limb(b@, q),
            all_canonical(out@),
        decreases 6 - j,
    {
        if 8 * j + 8 <= blen {
            let w = u64_from_le_bytes(&b[8 * j..8 * j + 8]);
            out.push(Fp::new(w));
        } else {
            out.push(Fp::zero());
        }
        j = j + 1;
    }
    out
}

impl HashChainAir {
    pub fn new(initial: Vec<u8>, iterations: usize) -> (r: Self)
        ensures
            r.initial@ == initial@,
            r.iterations == iterations,
    {
        HashChainAir { initial, iterations }
    }

    pub fn id(&self) -> (r: &'static str)
        ensures
            r@ == "hash_chain_v1"@,
    {
        "hash_chain_v1"
    }

    pub fn trace_len(&self) -> (r: usize)
        requires
            self.iterations < usize::MAX,
        ensures
            r == self.iterations + 1,
    {
        self.iterations + 1
    }

    pub fn n_cols(&self) -> (r: usize)
        ensures
            r == 6,
    {
        6
    }

    /// The public input: the seed, the hash chained over the raw seed, and
    /// the iteration count.
    pub fn public_input(&self) -> (r: HashChainPublic)
        requires
            self.iterations <= u32::MAX,
        ensures
            r.initial@ == self.initial@,
            r.final_hash@ == hc_iter(self.initial@, self.iterations as nat),
            self.iterations > 0 ==> r.final_hash@.len() == DIGEST_LEN,
            r.iterations == self.iterations,
    {
        let mut current = self.initial.clone();
        let mut k: usize = 0;
        while k < self.iterations
            invariant
                k <= self.iterations,
                current@ == hc_iter(self.initial@, k as nat),
                k > 0 ==> current@.len() == DIGEST_LEN,
            decreases self.iterations - k,
        {
            current = shake256_384(current.as_slice());
            k = k + 1;
        }
        HashChainPublic {
            initial: self.initial.clone(),
            final_hash: current,
            iterations: self.iterations as u32,
        }
    }

    /// Generate the trace: row `i` holds the limbs of the chain state after
    /// `i` hashes of the zero-padded seed.
    pub fn gen_trace(&self) -> (r: Vec<Vec<Fp>>)
        requires
            self.iterations < usize::MAX,
        ensures
            r@.len() == 6,
            forall|j: int| 0 <= j < 6 ==> (#[trigger] r@[j])@.len() == self.iterations + 1,
            forall|j: int, i: int| 0 <= j < 6 && 0 <= i <= self.iterations
                ==> (#[trigger] r@[j]@[i]).0 == hc_limb(hc_state(self.initial@, i as nat), j),
            forall|j: int| 0 <= j < 6 ==> all_canonical((#[trigger] r@[j])@),
    {
        let n = self.iterations + 1;
        let mut current = self.initial.clone();
        while current.len() < 48
            invariant
                hc_pad(self.initial@) == hc_pad(current@),
                current@.len() >= self.initial@.len(),
            decreases 48 - current@.len(),
        {
            current.push(0u8);
            proof {
                let prev = current@.drop_last();
                assert(hc_pad(prev) =~= hc_pad(current@));
            }
        }
        proof {
            assert(hc_pad(current@) == current@);
            assert(current@ == hc_state(self.initial@, 0));
        }
        let mut c0: Vec<Fp> = Vec::new();
        let mut c1: Vec<Fp> = Vec::new();
        let mut c2: Vec<Fp> = Vec::new();
        let mut c3: Vec<Fp> = Vec::new();
        let mut c4: Vec<Fp> = Vec::new();
        let mut c5: Vec<Fp> = Vec::new();
        let mut step: usize = 0;
        while step < n
            invariant
                c0@.len() == step,
                c1@.len() == step,
                c2@.len() == step,
                c3@.len() == step,
                c4@.len() == step,
                c5@.len() == step,
                step <= n,
                n == self.iterations + 1,
                step < n ==> current@ == hc_state(self.initial@, step as nat),
                forall|q: int| 0 <= q < step ==> (#[trigger] c0@[q]).0
                    == hc_limb(hc_state(self.initial@, q as nat), 0),
                forall|q: int| 0 <= q < step ==> (#[trigger] c1@[q]).0
                    == hc_limb(hc_state(self.initial@, q as nat), 1),
                forall|q: int| 0 <= q < step ==> (#[trigger] c2@[q]).0
                    == hc_limb(hc_state(self.initial@, q as nat), 2),
                forall|q: int| 0 <= q < step ==> (#[trigger] c3@[q]).0
                    == hc_limb(hc_state(self.initial@, q as nat), 3),
                forall|q: int| 0 <= q < step ==> (#[trigger] c4@[q]).0
                    == hc_limb(hc_state(self.initial@, q as nat), 4),
                forall|q: int| 0 <= q < step ==> (#[trigger] c5@[q]).0
                    == hc_limb(hc_state(self.initial@, q as nat), 5),
                all_canonical(c0@),
                all_canonical(c1@),
                all_canonical(c2@),
                all_canonical(c3@),
                all_canonical(c4@),
                all_canonical(c5@),
            decreases n - step,
        {
            let limbs = bytes_limbs(current.as_slice());
            c0.push(limbs[0]);
            c1.push(limbs[1]);
            c2.push(limbs[2]);
            c3.push(limbs[3]);
            c4.push(limbs[4]);
            c5.push(limbs[5]);
            if step + 1 < n {
                current = shake256_384(current.as_slice());
            }
            step = step + 1;
        }
        let mut r: Vec<Vec<Fp>> = Vec::new();
        r.push(c0);
        r.push(c1);
        r.push(c2);
        r.push(c3);
        r.push(c4);
        r.push(c5);
        r
    }

    /// The verifier's row predicate: boundary limbs match the public seed
    /// and final hash, interior rows hash to their successor.
    pub fn check_row(i: usize, row: &[Fp], next: Option<&[Fp]>, pub_inp: &HashChainPublic)
        -> (r: bool)
        requires
            row@.len() == 6,
            all_canonical(row@),
            match next {
                Option::Some(nxt) => nxt@.len() == 6 && all_canonical(nxt@),
                Option::None => true,
            },
        ensures
            r == hc_check_row(i as nat, row@, match next {
                Option::Some(nxt) => Option::Some(nxt@),
                Option::None => Option::None,
            }, pub_inp.initial@, pub_inp.final_hash@),
    {
        if i == 0 {
            if !limbs_match(row, &pub_inp.initial) {
                return false;
            }
        }
        match next {
            Option::Some(nxt) => {
                let expected = hash_limbs(row);
                let mut j: usize = 0;
                while j < 6
                    invariant
                        j <= 6,
                        next == Option::Some(nxt),
                        nxt@.len() == 6,
                        expected@.len() == 6,
                        forall|q: int| 0 <= q < 6 ==> (#[trigger] expected@[q]).0
                            == row_elem_of(xof_of(row_bytes_of(row@), DIGEST_LEN as nat), q),
                        forall|q: int| 0 <= q < j ==> (#[trigger] nxt@[q]).0
                            == row_elem_of(xof_of(row_bytes_of(row@), DIGEST_LEN as nat), q),
                    decreases 6 - j,
                {
                    if nxt[j].to_u64() != expected[j].to_u64() {
                        proof {
                            assert(nxt@[j as int].0 != row_elem_of(
                                xof_of(row_bytes_of(row@), DIGEST_LEN as nat), j as int));
                            assert(!hc_transition_ok(row@, nxt@));
                        }
                        return false;
                    }
                    j = j + 1;
                }
                true
            },
            Option::None => limbs_match(row, &pub_inp.final_hash),
        }
    }

    /// The constraint vector: limb differences against the boundary bytes
    /// and against the hashed previous row.
    pub fn eval_constraints(&self, i: usize, row: &[Fp], next: Option<&[Fp]>,
        pub_inp: &HashChainPublic) -> (r: Vec<Fp>)
        requires
            row@.len() == 6,
            all_canonical(row@),
            match next {
                Option::Some(nxt) => nxt@.len() == 6 && all_canonical(nxt@),
                Option::None => true,
            },
        ensures
            r@.len() == 6,
            match next {
                Option::Some(nxt) => forall|j: int| 0 <= j < 6 ==> (#[trigger] r@[j]).0
                    == (nxt[j].0 - row_elem_of(xof_of(row_bytes_of(row@),
                        DIGEST_LEN as nat), j)) % MODULUS as int,
                Option::None => forall|j: int| 0 <= j < 6 ==> (#[trigger] r@[j]).0
                    == if 8 * j + 8 <= pub_inp.final_hash@.len() {
                        (row[j].0 - row_elem_of(pub_inp.final_hash@, j)) % MODULUS as int
                    } else if i == 0 && 8 * j + 8 <= pub_inp.initial@.len() {
                        (row[j].0 - row_elem_of(pub_inp.initial@, j)) % MODULUS as int
                    } else {
                        0int
                    },
            },
    {
        let mut out: Vec<Fp> = Vec::new();
        match next {
            Option::Some(nxt) => {
                let expected = hash_limbs(row);
                let mut j: usize = 0;
                while j < 6
                    invariant
                        out@.len() == j,
                        j <= 6,
                        nxt@.len() == 6,
                        all_canonical(nxt@),
                        expected@.len() == 6,
                        all_canonical(expected@),
                        forall|q: int| 0 <= q < 6 ==> (#[trigger] expected@[q]).0
                            == row_elem_of(xof_of(row_bytes_of(row@), DIGEST_LEN as nat), q),
                        forall|q: int| 0 <= q < j ==> (#[trigger] out@[q]).0
                            == (nxt@[q].0 - row_elem_of(xof_of(row_bytes_of(row@),
                                DIGEST_LEN as nat), q)) % MODULUS as int,
                    decreases 6 - j,
                {
                    out.push(nxt[j].sub(expected[j]));
                    j = j + 1;
                }
                out
            },
            Option::None => {
                let mut j: usize = 0;
                while j < 6
                    invariant
                        out@.len() == j,
                        j <= 6,
                        row@.len() == 6,
                        all_canonical(row@),
                        forall|q: int| 0 <= q < j ==> (#[trigger] out@[q]).0
                            == if 8 * q + 8 <= pub_inp.final_hash@.len() {
                                (row@[q].0 - row_elem_of(pub_inp.final_hash@, q))
                                    % MODULUS as int
                            } else if i == 0 && 8 * q + 8 <= pub_inp.initial@.len() {
                                (row@[q].0 - row_elem_of(pub_inp.initial@, q))
                                    % MODULUS as int
                            } else {
                                0int
                            },
                    decreases 6 - j,
                {
                    let flen: usize = pub_inp.final_hash.len();
                    let ilen: usize = pub_inp.initial.len();
                    if 8 * j + 8 <= flen {
                        let w = u64_from_le_bytes(&pub_inp.final_hash.as_slice()[
                            8 * j..8 * j + 8]);
                        out.push(row[j].sub(Fp::new(w)));
                    } else if i == 0 && 8 * j + 8 <= ilen {
                        let w = u64_from_le_bytes(&pub_inp.initial.as_slice()[
                            8 * j..8 * j + 8]);
                        out.push(row[j].sub(Fp::new(w)));
                    } else {
                        out.push(Fp::zero());
                    }
                    j = j + 1;
                }
                out
            },
        }
    }
}

/// Whether the row's limbs match a byte string wherever it is long enough.
fn limbs_match(row: &[Fp], bytes: &Vec<u8>) -> (r: bool)
    requires
        row@.len() == 6,
    ensures
        r == hc_boundary_ok(row@, bytes@),
{
    let blen: usize = bytes.len();
    let mut j: usize = 0;
    while j < 6
        invariant
            j <= 6,
            row@.len() == 6,
            blen == bytes@.len(),
            forall|q: int| 0 <= q < j && 8 * q + 8 <= bytes@.len()
                ==> (#[trigger] row@[q]).0 == row_elem_of(bytes@, q),
        decreases 6 - j,
    {
        if 8 * j + 8 <= blen {
            let w = u64_from_le_bytes(&bytes.as_slice()[8 * j..8 * j + 8]);
            let expected = Fp::new(w);
            if row[j].to_u64() != expected.to_u64() {
                proof {
                    assert(expected.0 == row_elem_of(bytes@, j as int));
                }
                return false;
            }
        }
        j = j + 1;
    }
    true
}

} // verus!
