//! The shielded-transaction data model: notes with their commitments and
//! nullifiers, the transaction record, and the shielded-sum example AIR
//! whose trace proves that input and output values balance.

use vstd::prelude::*;
use vstd::bytes::{spec_u64_to_le_bytes, u64_to_le_bytes};
use crate::field::{Fp, MODULUS};
use crate::hash::{h_many, h_many_tail, xof_of, views_of, dom_note_cm, dom_note_cm_bytes,
    dom_note_nf, dom_note_nf_bytes, DIGEST_LEN};
use crate::poly::all_canonical;

verus! {

/// A key pair of opaque byte strings.
#[derive(Clone, Debug)]
pub struct Keypair {
    pub sk: Vec<u8>,
    pub pk: Vec<u8>,
}

/// A shielded note: a value bound to a recipient with two blinding strings.
#[derive(Clone, Debug)]
pub struct Note {
    pub value: u64,
    pub recipient_pk: Vec<u8>,
    pub rho: [u8; 32],
    pub r: [u8; 32],
}

/// A spent input: its nullifier and membership path.
#[derive(Clone, Debug)]
pub struct Input {
    pub nullifier: Vec<u8>,
    pub witness_path: Vec<Vec<u8>>,
}

/// A created output: its commitment and the note it hides.
#[derive(Clone, Debug)]
pub struct Output {
    pub cm: Vec<u8>,
    pub note: Note,
}

/// A version-1 shielded transaction.
#[derive(Clone, Debug)]
pub struct TxV1 {
    pub inputs: Vec<Input>,
    pub outputs: Vec<Output>,
    pub ciphertexts: Vec<Vec<u8>>,
}

/// What a note commitment hashes: value, recipient key, and both blinders.
pub open spec fn note_commit_input(n: Note) -> Seq<u8> {
    spec_u64_to_le_bytes(n.value) + n.recipient_pk@ + n.rho@ + n.r@
}

/// The commitment of a note: the domain-separated hash of its fields.
pub fn note_commitment(note: &Note) -> (r: Vec<u8>)
    ensures
        r@ == xof_of(dom_note_cm() + h_many_tail(seq![note_commit_input(*note)]),
            DIGEST_LEN as nat),
        r@.len() == DIGEST_LEN,
{
    let mut buf = u64_to_le_bytes(note.value);
    buf.extend_from_slice(note.recipient_pk.as_slice());
    buf.extend_from_slice(note.rho.as_slice());
    buf.extend_from_slice(note.r.as_slice());
    proof {
        assert(buf@ =~= note_commit_input(*note));
    }
    let mut parts: Vec<Vec<u8>> = Vec::new();
    parts.push(buf);
    let label = dom_note_cm_bytes();
    let r = h_many(label.as_slice(), &parts);
    proof {
        assert(views_of(parts@) =~= seq![note_commit_input(*note)]);
    }
    r
}

/// The nullifier of a note position: the domain-separated hash of the
/// spending key and the note's rho.
pub fn nullifier(nsk: &[u8], rho: &[u8; 32]) -> (r: Vec<u8>)
    ensures
        r@ == xof_of(dom_note_nf() + h_many_tail(seq![nsk@, rho@]), DIGEST_LEN as nat),
        r@.len() == DIGEST_LEN,
{
    let mut parts: Vec<Vec<u8>> = Vec::new();
    parts.push(vstd::slice::slice_to_vec(nsk));
    parts.push(vstd::slice::slice_to_vec(rho.as_slice()));
    let label = dom_note_nf_bytes();
    let r = h_many(label.as_slice(), &parts);
    proof {
        assert(views_of(parts@) =~= seq![nsk@, rho@]);
    }
    r
}

/// The public input of the shielded-sum AIR.
#[derive(Clone, Debug)]
pub struct ShieldedPublic {
    pub n_in: u32,
    pub n_out: u32,
    pub prev_root: Vec<u8>,
}

/// Proves that input values balance output values: an accumulator starts at
/// the wrapped difference of the sums, subtracts each input, adds each
/// output, and must end at zero.
#[derive(Clone)]
pub struct ShieldedAir {
    pub in_values: Vec<u64>,
    pub out_values: Vec<u64>,
    pub prev_root: Vec<u8>,
}

/// The integer sum of a word list.
pub open spec fn sum_u64(s: Seq<u64>) -> int
    decreases s.len(),
{
    if s.len() == 0 {
        0
    } else {
        sum_u64(s.drop_last()) + s.last()
    }
}

/// The accumulator after `i` rows: the wrapped sum difference reduced into
/// the field, minus the inputs and plus the outputs seen so far.
pub open spec fn sh_acc(ins: Seq<u64>, outs: Seq<u64>, i: nat) -> int
    decreases i,
{
    if i == 0 {
        (((sum_u64(ins) - sum_u64(outs))
            % 0x1_0000_0000_0000_0000_0000_0000_0000_0000int) % MODULUS as int)
    } else if i <= ins.len() {
        (sh_acc(ins, outs, (i - 1) as nat)
            - (ins[i - 1] as int % MODULUS as int)) % MODULUS as int
    } else {
        (sh_acc(ins, outs, (i - 1) as nat)
            + ((outs[i - 1 - ins.len()] as int) % MODULUS as int)) % MODULUS as int
    }
}

/// What `ShieldedAir::check_row` decides.
pub open spec fn sh_check_row(i: nat, row: Seq<Fp>, next: Option<Seq<Fp>>, n_in: nat)
    -> bool {
    match next {
        Option::Some(nxt) => {
            if i < n_in {
                nxt[0].0 == (row[0].0 - row[1].0) % MODULUS as int
            } else {
                nxt[0].0 == (row[0].0 + row[1].0) % MODULUS as int
            }
        },
        Option::None => row[0].0 == 0,
    }
}

impl ShieldedAir {
    pub fn new(in_values: Vec<u64>, out_values: Vec<u64>, prev_root: Vec<u8>) -> (r: Self)
        ensures
            r.in_values@ == in_values@,
            r.out_values@ == out_values@,
            r.prev_root@ == prev_root@,
    {
        ShieldedAir { in_values, out_values, prev_root }
    }

    pub fn id(&self) -> (r: &'static str)
        ensures
            r@ == "shielded_v1"@,
    {
        "shielded_v1"
    }

    pub fn trace_len(&self) -> (r: usize)
        requires
            self.in_values@.len() + self.out_values@.len() < usize::MAX,
        ensures
            r == self.in_values@.len() + self.out_values@.len() + 1,
    {
        self.in_values.len() + self.out_values.len() + 1
    }

    pub fn n_cols(&self) -> (r: usize)
        ensures
            r == 2,
    {
        2
    }

    pub fn public_input(&self) -> (r: ShieldedPublic)
        requires
            self.in_values@.len() <= u32::MAX,
            self.out_values@.len() <= u32::MAX,
        ensures
            r.n_in == self.in_values@.len(),
            r.n_out == self.out_values@.len(),
            r.prev_root@ == self.prev_root@,
    {
        ShieldedPublic {
            n_in: self.in_values.len() as u32,
            n_out: self.out_values.len() as u32,
            prev_root: self.prev_root.clone(),
        }
    }

    /// Generate the trace: values in the second column, the running
    /// accumulator in the first.
    pub fn gen_trace(&self) -> (r: Vec<Vec<Fp>>)
        requires
            self.in_values@.len() + self.out_values@.len() < usize::MAX,
        ensures
            r@.len() == 2,
            r@[0]@.len() == self.in_values@.len() + self.out_values@.len() + 1,
            r@[1]@.len() == self.in_values@.len() + self.out_values@.len() + 1,
            forall|i: int| 0 <= i <= self.in_values@.len() + self.out_values@.len()
                ==> (#[trigger] r@[0]@[i]).0
                    == sh_acc(self.in_values@, self.out_values@, i as nat),
            forall|i: int| 0 <= i < self.in_values@.len() ==> (#[trigger] r@[1]@[i]).0
                == self.in_values@[i] as int % MODULUS as int,
            forall|i: int| self.in_values@.len() <= i
                < self.in_values@.len() + self.out_values@.len()
                ==> (#[trigger] r@[1]@[i]).0
                    == self.out_values@[i - self.in_values@.len()] as int % MODULUS as int,
            all_canonical(r@[0]@),
            all_canonical(r@[1]@),
    {
        let n_in = self.in_values.len();
        let n_out = self.out_values.len();
        let n = n_in + n_out + 1;
        let sum_in = sum_words(&self.in_values);
        let sum_out = sum_words(&self.out_values);
        let diff: u128 = if sum_in >= sum_out {
            sum_in - sum_out
        } else {
            (u128::MAX - (sum_out - sum_in)) + 1
        };
        proof {
            let m128 = 0x1_0000_0000_0000_0000_0000_0000_0000_0000int;
            let d = sum_u64(self.in_values@) - sum_u64(self.out_values@);
            if sum_in >= sum_out {
                vstd::arithmetic::div_mod::lemma_small_mod((sum_in - sum_out) as nat,
                    m128 as nat);
            } else {
                vstd::arithmetic::div_mod::lemma_mod_add_multiples_vanish(d, m128);
                vstd::arithmetic::div_mod::lemma_small_mod((d + m128) as nat, m128 as nat);
            }
        }
        let mut acc = Fp::from_u128(diff);
        let mut c0: Vec<Fp> = Vec::new();
        let mut c1: Vec<Fp> = Vec::new();
        let mut i: usize = 0;
        while i < n_in
            invariant
                c0@.len() == i,
                c1@.len() == i,
                i <= n_in,
                n_in == self.in_values@.len(),
                n_out == self.out_values@.len(),
                acc.canonical(),
                acc.0 == sh_acc(self.in_values@, self.out_values@, i as nat),
                forall|q: int| 0 <= q < i ==> (#[trigger] c0@[q]).0
                    == sh_acc(self.in_values@, self.out_values@, q as nat),
                forall|q: int| 0 <= q < i ==> (#[trigger] c1@[q]).0
                    == self.in_values@[q] as int % MODULUS as int,
                all_canonical(c0@),
                all_canonical(c1@),
            decreases n_in - i,
        {
            let v = Fp::new(self.in_values[i]);
            c0.push(acc);
            c1.push(v);
            acc = acc.sub(v);
            i = i + 1;
        }
        let mut j: usize = 0;
        while j < n_out
            invariant
                c0@.len() == n_in + j,
                c1@.len() == n_in + j,
                j <= n_out,
                n_in == self.in_values@.len(),
                n_out == self.out_values@.len(),
                acc.canonical(),
                acc.0 == sh_acc(self.in_values@, self.out_values@, (n_in + j) as nat),
                forall|q: int| 0 <= q < n_in + j ==> (#[trigger] c0@[q]).0
                    == sh_acc(self.in_values@, self.out_values@, q as nat),
                forall|q: int| 0 <= q < n_in ==> (#[trigger] c1@[q]).0
                    == self.in_values@[q] as int % MODULUS as int,
                forall|q: int| n_in <= q < n_in + j ==> (#[trigger] c1@[q]).0
                    == self.out_values@[q - n_in] as int % MODULUS as int,
                all_canonical(c0@),
                all_canonical(c1@),
            decreases n_out - j,
        {
            let v = Fp::new(self.out_values[j]);
            c0.push(acc);
            c1.push(v);
            acc = acc.add(v);
            j = j + 1;
        }
        c0.push(acc);
        c1.push(Fp::zero());
        let mut r: Vec<Vec<Fp>> = Vec::new();
        r.push(c0);
        r.push(c1);
        r
    }

    /// The verifier's row predicate: the accumulator subtracts inputs, adds
    /// outputs, and ends at zero.
    pub fn check_row(i: usize, row: &[Fp], next: Option<&[Fp]>, pub_inp: &ShieldedPublic)
        -> (r: bool)
        requires
            row@.len() == 2,
            all_canonical(row@),
            match next {
                Option::Some(nxt) => nxt@.len() == 2 && all_canonical(nxt@),
                Option::None => true,
            },
        ensures
            r == sh_check_row(i as nat, row@, match next {
                Option::Some(nxt) => Option::Some(nxt@),
                Option::None => Option::None,
            }, pub_inp.n_in as nat),
    {
        match next {
            Option::Some(nxt) => {
                if (i as u64) < pub_inp.n_in as u64 {
                    nxt[0].to_u64() == row[0].sub(row[1]).to_u64()
                } else {
                    nxt[0].to_u64() == row[0].add(row[1]).to_u64()
                }
            },
            Option::None => row[0].to_u64() == 0,
        }
    }

    /// The constraint vector: the accumulator transition or the final
    /// zero boundary.
    pub fn eval_constraints(&self, i: usize, row: &[Fp], next: Option<&[Fp]>,
        pub_inp: &ShieldedPublic) -> (r: Vec<Fp>)
        requires
            row@.len() == 2,
            all_canonical(row@),
            match next {
                Option::Some(nxt) => nxt@.len() == 2 && all_canonical(nxt@),
                Option::None => true,
            },
        ensures
            r@.len() == 2,
            r@[1].0 == 0,
            match next {
                Option::Some(nxt) => {
                    if i < pub_inp.n_in {
                        r@[0].0 == (nxt@[0].0 - (row@[0].0 - row@[1].0) % MODULUS as int)
                            % MODULUS as int
                    } else {
                        r@[0].0 == (nxt@[0].0 - (row@[0].0 + row@[1].0) % MODULUS as int)
                            % MODULUS as int
                    }
                },
                Option::None => r@[0].0 == row@[0].0,
            },
    {
        let mut out: Vec<Fp> = Vec::new();
        match next {
            Option::Some(nxt) => {
                if (i as u64) < pub_inp.n_in as u64 {
                    out.push(nxt[0].sub(row[0].sub(row[1])));
                } else {
                    out.push(nxt[0].sub(row[0].add(row[1])));
                }
                out.push(Fp::zero());
            },
            Option::None => {
                proof {
                    vstd::arithmetic::div_mod::lemma_small_mod(row@[0].0 as nat,
                        MODULUS as nat);
                }
                out.push(row[0].sub(Fp::zero()));
                out.push(Fp::zero());
            },
        }
        out
    }
}

/// Sum a word list in 128-bit arithmetic; the sum of any in-memory list
/// fits.
fn sum_words(s: &Vec<u64>) -> (r: u128)
    ensures
        r == sum_u64(s@),
{
    let mut acc: u128 = 0;
    let mut i: usize = 0;
    proof {
        assert(s@.take(0) =~= Seq::<u64>::empty());
    }
    while i < s.len()
        invariant
            i <= s@.len(),
            acc == sum_u64(s@.take(i as int)),
            acc <= i * 0xFFFF_FFFF_FFFF_FFFF,
            i <= usize::MAX,
        decreases s@.len() - i,
    {
        proof {
            assert((i + 1) * 0xFFFF_FFFF_FFFF_FFFF
                == i * 0xFFFF_FFFF_FFFF_FFFF + 0xFFFF_FFFF_FFFF_FFFF) by (nonlinear_arith);
            assert(i * 0xFFFF_FFFF_FFFF_FFFF <= usize::MAX as int * 0xFFFF_FFFF_FFFF_FFFF)
                by (nonlinear_arith)
                requires i <= usize::MAX as int;
        }
        acc = acc + (s[i] as u128);
        i = i + 1;
        proof {
            assert(s@.take(i as int).drop_last() =~= s@.take(i - 1));
            assert(s@.take(i as int).last() == s@[i - 1]);
        }
    }
    proof {
        assert(s@.take(s@.len() as int) =~= s@);
    }
    acc
}

} // verus!
