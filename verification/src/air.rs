//! The AIR surface: the Fibonacci example AIR over two columns, its public
//! input, and the row byte encoding shared by the prover and verifier.

use vstd::prelude::*;
use vstd::bytes::{spec_u64_from_le_bytes, spec_u64_to_le_bytes, u64_from_le_bytes,
    u64_to_le_bytes};
use crate::field::{Fp, MODULUS};

verus! {

/// The Fibonacci value stream mod p: F(0) = a0, F(1) = a1,
/// F(k+2) = F(k) + F(k+1) mod p.
pub open spec fn fib_f(a0: int, a1: int, k: nat) -> int
    decreases k,
{
    if k == 0 {
        a0
    } else if k == 1 {
        a1
    } else {
        (fib_f(a0, a1, (k - 2) as nat) + fib_f(a0, a1, (k - 1) as nat)) % MODULUS as int
    }
}

/// The public input of the Fibonacci AIR.
#[derive(Clone, Copy, PartialEq, Eq, Structural, Debug)]
pub struct FibPublic {
    pub steps: u32,
    pub a0: u64,
    pub a1: u64,
    pub expected_first: u64,
}

/// A two-column AIR whose trace carries consecutive Fibonacci pairs:
/// columns [F(i), F(i+1)], with boundary rows fixing the seeds and the
/// final value.
#[derive(Clone)]
pub struct FibonacciAir {
    pub a0: Fp,
    pub a1: Fp,
    pub steps: usize,
}

/// What `check_row` decides: boundary rows match the public input, interior
/// rows step by the Fibonacci rule.
pub open spec fn spec_check_row(i: nat, row: Seq<Fp>, next: Option<Seq<Fp>>,
    p: FibPublic) -> bool {
    &&& (i == 0 ==> row[0].0 == p.a0 && row[1].0 == p.a1)
    &&& match next {
        Option::Some(nxt) => {
            &&& nxt[0].0 == row[1].0
            &&& nxt[1].0 == (row[0].0 + row[1].0) % MODULUS as int
        },
        Option::None => row[0].0 == p.expected_first,
    }
}

impl FibonacciAir {
    pub fn new(a0: u64, a1: u64, steps: usize) -> (r: Self)
        ensures
            r.a0.0 == a0 as int % MODULUS as int,
            r.a1.0 == a1 as int % MODULUS as int,
            r.steps == steps,
            r.a0.canonical(),
            r.a1.canonical(),
    {
        FibonacciAir { a0: Fp::new(a0), a1: Fp::new(a1), steps }
    }

    /// The versioned identifier of this AIR.
    pub fn id(&self) -> (r: &'static str)
        ensures
            r@ == "fibonacci_v1"@,
    {
        "fibonacci_v1"
    }

    /// The number of trace rows: one more than the step count.
    pub fn trace_len(&self) -> (r: usize)
        requires
            self.steps < usize::MAX,
        ensures
            r == self.steps + 1,
    {
        self.steps + 1
    }

    /// The number of trace columns.
    pub fn n_cols(&self) -> (r: usize)
        ensures
            r == 2,
    {
        2
    }

    /// The value F(steps), reached by iterating the Fibonacci rule.
    pub fn expected_first(a0: Fp, a1: Fp, steps: usize) -> (r: Fp)
        requires
            a0.canonical(),
            a1.canonical(),
        ensures
            r.0 == fib_f(a0.0 as int, a1.0 as int, steps as nat),
            r.canonical(),
    {
        let mut x = a0;
        let mut y = a1;
        let mut i: usize = 0;
        while i < steps
            invariant
                i <= steps,
                x.canonical(),
                y.canonical(),
                x.0 == fib_f(a0.0 as int, a1.0 as int, i as nat),
                y.0 == fib_f(a0.0 as int, a1.0 as int, (i + 1) as nat),
        decreases steps - i,
        {
            let z = x.add(y);
            x = y;
            y = z;
            i = i + 1;
        }
        x
    }

    /// The canonically encoded public input value.
    pub fn public_input(&self) -> (r: FibPublic)
        requires
            self.a0.canonical(),
            self.a1.canonical(),
            self.steps <= u32::MAX,
        ensures
            r.steps == self.steps,
            r.a0 == self.a0.0,
            r.a1 == self.a1.0,
            r.expected_first == fib_f(self.a0.0 as int, self.a1.0 as int, self.steps as nat),
    {
        FibPublic {
            steps: self.steps as u32,
            a0: self.a0.to_u64(),
            a1: self.a1.to_u64(),
            expected_first: Self::expected_first(self.a0, self.a1, self.steps).to_u64(),
        }
    }

    /// Generate the column-major trace: cols[0][i] = F(i), cols[1][i] = F(i+1).
    pub fn gen_trace(&self) -> (r: Vec<Vec<Fp>>)
        requires
            self.a0.canonical(),
            self.a1.canonical(),
            self.steps < usize::MAX,
        ensures
            r@.len() == 2,
            r@[0]@.len() == self.steps + 1,
            r@[1]@.len() == self.steps + 1,
            forall|i: int| 0 <= i <= self.steps ==> (#[trigger] r@[0]@[i]).0
                == fib_f(self.a0.0 as int, self.a1.0 as int, i as nat),
            forall|i: int| 0 <= i <= self.steps ==> (#[trigger] r@[1]@[i]).0
                == fib_f(self.a0.0 as int, self.a1.0 as int, (i + 1) as nat),
            crate::poly::all_canonical(r@[0]@),
            crate::poly::all_canonical(r@[1]@),
    {
        let n = self.steps + 1;
        let mut c0: Vec<Fp> = Vec::new();
        let mut c1: Vec<Fp> = Vec::new();
        let mut x = self.a0;
        let mut y = self.a1;
        let mut i: usize = 0;
        while i < n
            invariant
                c0@.len() == i,
                c1@.len() == i,
                i <= n,
                x.canonical(),
                y.canonical(),
                x.0 == fib_f(self.a0.0 as int, self.a1.0 as int, i as nat),
                y.0 == fib_f(self.a0.0 as int, self.a1.0 as int, (i + 1) as nat),
                forall|q: int| 0 <= q < i ==> (#[trigger] c0@[q]).0
                    == fib_f(self.a0.0 as int, self.a1.0 as int, q as nat),
                forall|q: int| 0 <= q < i ==> (#[trigger] c1@[q]).0
                    == fib_f(self.a0.0 as int, self.a1.0 as int, (q + 1) as nat),
                crate::poly::all_canonical(c0@),
                crate::poly::all_canonical(c1@),
            decreases n - i,
        {
            c0.push(x);
            c1.push(y);
            let z = x.add(y);
            x = y;
            y = z;
            i = i + 1;
        }
        let mut r: Vec<Vec<Fp>> = Vec::new();
        r.push(c0);
        r.push(c1);
        r
    }

    /// The verifier's cheap row predicate at sampled rows.
    pub fn check_row(i: usize, row: &[Fp], next: Option<&[Fp]>, pub_inp: &FibPublic)
        -> (r: bool)
        requires
            row@.len() == 2,
            crate::poly::all_canonical(row@),
            match next {
                Option::Some(nxt) => nxt@.len() == 2 && crate::poly::all_canonical(nxt@),
                Option::None => true,
            },
        ensures
            r == spec_check_row(i as nat, row@, match next {
                Option::Some(nxt) => Option::Some(nxt@),
                Option::None => Option::None,
            }, *pub_inp),
    {
        if i == 0 {
            if row[0].to_u64() != pub_inp.a0 || row[1].to_u64() != pub_inp.a1 {
                return false;
            }
        }
        match next {
            Option::Some(nxt) => {
                if nxt[0].to_u64() != row[1].to_u64() {
                    return false;
                }
                let s = row[0].add(row[1]);
                if nxt[1].to_u64() != s.to_u64() {
                    return false;
                }
                true
            },
            Option::None => row[0].to_u64() == pub_inp.expected_first,
        }
    }

    /// The constraint vector at a row: zero entries exactly when the row is
    /// consistent with the transition (or final boundary) constraints.
    pub fn eval_constraints(&self, i: usize, row: &[Fp], next: Option<&[Fp]>,
        pub_inp: &FibPublic) -> (r: Vec<Fp>)
        requires
            row@.len() == 2,
            crate::poly::all_canonical(row@),
            match next {
                Option::Some(nxt) => nxt@.len() == 2 && crate::poly::all_canonical(nxt@),
                Option::None => true,
            },
        ensures
            r@.len() == 2,
            match next {
                Option::Some(nxt) => {
                    &&& r@[0].0 == (nxt@[0].0 - row@[1].0) % MODULUS as int
                    &&& r@[1].0 == (nxt@[1].0 - (row@[0].0 + row@[1].0) % MODULUS as int)
                        % MODULUS as int
                },
                Option::None => {
                    &&& r@[0].0 == (row@[0].0 - pub_inp.expected_first as int % MODULUS as int)
                        % MODULUS as int
                    &&& r@[1].0 == 0
                },
            },
    {
        let _ = i;
        let mut out: Vec<Fp> = Vec::new();
        match next {
            Option::Some(nxt) => {
                let c0 = nxt[0].sub(row[1]);
                let c1 = nxt[1].sub(row[0].add(row[1]));
                out.push(c0);
                out.push(c1);
            },
            Option::None => {
                let c_end = row[0].sub(Fp::new(pub_inp.expected_first));
                out.push(c_end);
                out.push(Fp::zero());
            },
        }
        out
    }
}

/// The bytes of the Fibonacci AIR identifier "fibonacci_v1".
pub open spec fn fib_id_bytes() -> Seq<u8> {
    seq![102u8, 105u8, 98u8, 111u8, 110u8, 97u8, 99u8, 99u8, 105u8, 95u8, 118u8, 49u8]
}

/// The identifier "fibonacci_v1" as bytes.
pub fn fib_air_id_bytes() -> (r: Vec<u8>)
    ensures
        r@ == fib_id_bytes(),
{
    let mut v: Vec<u8> = Vec::new();
    v.push(102u8);
    v.push(105u8);
    v.push(98u8);
    v.push(111u8);
    v.push(110u8);
    v.push(97u8);
    v.push(99u8);
    v.push(99u8);
    v.push(105u8);
    v.push(95u8);
    v.push(118u8);
    v.push(49u8);
    proof {
        assert(v@ =~= fib_id_bytes());
    }
    v
}

/// The byte encoding of a row: each field element as eight little-endian
/// bytes, in column order.
pub open spec fn row_bytes_of(row: Seq<Fp>) -> Seq<u8>
    decreases row.len(),
{
    if row.len() == 0 {
        Seq::empty()
    } else {
        row_bytes_of(row.drop_last()) + spec_u64_to_le_bytes(row.last().0)
    }
}

/// Encode a row of field elements as little-endian 64-bit words.
pub fn row_to_bytes(row: &[Fp]) -> (r: Vec<u8>)
    ensures
        r@ == row_bytes_of(row@),
        r@.len() == 8 * row@.len(),
{
    let mut v: Vec<u8> = Vec::new();
    let mut i: usize = 0;
    proof {
        assert(row@.take(0) =~= Seq::<Fp>::empty());
        assert(v@ =~= row_bytes_of(row@.take(0)));
    }
    while i < row.len()
        invariant
            i <= row@.len(),
            v@ == row_bytes_of(row@.take(i as int)),
            v@.len() == 8 * i,
        decreases row@.len() - i,
    {
        let b = u64_to_le_bytes(vstd::slice::slice_index_get(row, i).to_u64());
        v.extend_from_slice(b.as_slice());
        i = i + 1;
        proof {
            assert(row@.take(i as int).drop_last() =~= row@.take(i - 1));
            assert(row@.take(i as int).last() == row@[i - 1]);
        }
    }
    proof {
        assert(row@.take(row@.len() as int) =~= row@);
    }
    v
}

/// The field element decoded from word `i` of a row byte string.
pub open spec fn row_elem_of(b: Seq<u8>, i: int) -> int {
    spec_u64_from_le_bytes(b.subrange(8 * i, 8 * i + 8)) as int % MODULUS as int
}

/// Decode a row byte string into field elements; rejects lengths that are
/// not a multiple of eight.
pub fn bytes_to_fps(b: &[u8]) -> (r: Option<Vec<Fp>>)
    ensures
        r is Some <==> b@.len() % 8 == 0,
        match r {
            Option::Some(v) => {
                &&& v@.len() == b@.len() / 8
                &&& forall|i: int| 0 <= i < v@.len() ==> (#[trigger] v@[i]).0
                    == row_elem_of(b@, i)
                &&& crate::poly::all_canonical(v@)
            },
            Option::None => true,
        },
{
    if b.len() % 8 != 0 {
        return None;
    }
    let blen: usize = b.len();
    let count = blen / 8;
    proof {
        vstd::arithmetic::div_mod::lemma_fundamental_div_mod(b@.len() as int, 8);
    }
    let mut v: Vec<Fp> = Vec::new();
    let mut i: usize = 0;
    while i < count
        invariant
            v@.len() == i,
            i <= count,
            count == b@.len() / 8,
            8 * count == b@.len(),
            b@.len() <= usize::MAX,
            forall|q: int| 0 <= q < i ==> (#[trigger] v@[q]).0 == row_elem_of(b@, q),
            crate::poly::all_canonical(v@),
        decreases count - i,
    {
        proof {
            assert(8 * (i as int) + 8 <= 8 * (count as int));
        }
        let w = u64_from_le_bytes(&b[8 * i..8 * i + 8]);
        v.push(Fp::new(w));
        i = i + 1;
    }
    Some(v)
}

/// Decoding inverts encoding: word `i` of an encoded row decodes back to
/// the canonical element it came from.
pub proof fn lemma_row_bytes_roundtrip(row: Seq<Fp>, i: int)
    requires
        0 <= i < row.len(),
        crate::poly::all_canonical(row),
    ensures
        row_elem_of(row_bytes_of(row), i) == row[i].0,
        row_bytes_of(row).len() == 8 * row.len(),
    decreases row.len(),
{
    lemma_row_bytes_len(row);
    vstd::bytes::lemma_auto_spec_u64_to_from_le_bytes();
    if i == row.len() - 1 {
        assert(row_bytes_of(row).subrange(8 * i, 8 * i + 8)
            =~= spec_u64_to_le_bytes(row.last().0));
        vstd::arithmetic::div_mod::lemma_small_mod(row[i].0 as nat, MODULUS as nat);
    } else {
        lemma_row_bytes_roundtrip(row.drop_last(), i);
        assert(row_bytes_of(row).subrange(8 * i, 8 * i + 8)
            =~= row_bytes_of(row.drop_last()).subrange(8 * i, 8 * i + 8));
    }
}

/// The length of an encoded row: eight bytes per element.
pub proof fn lemma_row_bytes_len(row: Seq<Fp>)
    ensures
        row_bytes_of(row).len() == 8 * row.len(),
    decreases row.len(),
{
    vstd::bytes::lemma_auto_spec_u64_to_from_le_bytes();
    if row.len() > 0 {
        lemma_row_bytes_len(row.drop_last());
    }
}

} // verus!
