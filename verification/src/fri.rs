//! The FRI oracle layer: commitment to a vector of field elements through
//! per-element hashed leaves under a Merkle root, random-linear folding,
//! pair openings at mirrored positions, and their verification.

use vstd::prelude::*;
use vstd::bytes::{spec_u64_from_le_bytes, spec_u64_to_le_bytes, u64_from_le_bytes,
    u64_to_le_bytes};
use crate::field::{Fp, MODULUS};
use crate::hash::{h_many, h_many_tail, shake256_384, xof_of, views_of, dom_fri_leaf,
    dom_fri_leaf_bytes, DIGEST_LEN};
use crate::merkle::{MerkleTree, merkle_fold, spec_open};
use crate::poly::{all_canonical, poly_eval_spec, horner_eval};

verus! {

/// A committed oracle: the Merkle root over hashed leaves and the number of
/// committed field elements.
#[derive(Clone, Debug)]
pub struct OracleCommitment {
    pub root: Vec<u8>,
    pub len: usize,
}

/// One inclusion proof in an oracle: the position, the claimed element, and
/// the Merkle sibling path.
#[derive(Clone, Debug)]
pub struct OracleProof {
    pub idx: usize,
    pub value: Fp,
    pub path: Vec<Vec<u8>>,
}

#[derive(Clone, Debug)]
pub struct FriCommitment {
    pub oracle: OracleCommitment,
}

#[derive(Clone, Debug)]
pub struct FriQuery {
    pub oracle_proof: OracleProof,
}

#[derive(Clone, Debug)]
pub struct FriRoundCommitment {
    pub root: Vec<u8>,
    pub len: usize,
}

#[derive(Clone, Debug)]
pub struct FriMultiCommitment {
    pub rounds: Vec<FriRoundCommitment>,
}

/// Inclusion proofs for the two positions `pos` and `pos XOR len/2` of one
/// oracle, which a folding round combines into one element.
#[derive(Clone, Debug)]
pub struct PairOpening {
    pub pos: usize,
    pub lo: OracleProof,
    pub hi: OracleProof,
}

#[derive(Clone, Debug)]
pub struct FriRoundQuery {
    pub pair: PairOpening,
}

#[derive(Clone, Debug)]
pub struct FriMultiQuery {
    pub rounds: Vec<FriRoundQuery>,
}

/// An out-of-domain evaluation sample.
#[derive(Clone, Debug)]
pub struct DeepSample {
    pub z: Fp,
    pub value: Fp,
}

#[derive(Clone, Debug)]
pub struct DeepCommitment {
    pub samples: Vec<DeepSample>,
    pub composition_root: Vec<u8>,
}

/// The leaf digest of oracle element `v`: the 48-byte hash of the
/// domain-labelled, index-prefixed encoding of its little-endian bytes,
/// hashed once more.
pub open spec fn fri_leaf_of(v: u64) -> Seq<u8> {
    xof_of(
        xof_of(dom_fri_leaf() + seq![0u8] + spec_u64_to_le_bytes(v), DIGEST_LEN as nat),
        DIGEST_LEN as nat)
}

/// Compute the leaf digest of one oracle element.
pub fn fri_leaf(v: u64) -> (r: Vec<u8>)
    ensures
        r@ == fri_leaf_of(v),
        r@.len() == DIGEST_LEN,
{
    let bytes = u64_to_le_bytes(v);
    let mut parts: Vec<Vec<u8>> = Vec::new();
    parts.push(bytes);
    let label = dom_fri_leaf_bytes();
    let inner = h_many(label.as_slice(), &parts);
    proof {
        let pv = views_of(parts@);
        assert(pv.len() == 1);
        assert(pv.last() == spec_u64_to_le_bytes(v));
        assert(pv.drop_last() =~= Seq::<Seq<u8>>::empty());
        assert(h_many_tail(pv.drop_last()) == Seq::<u8>::empty());
        assert(h_many_tail(pv) =~= seq![0u8] + spec_u64_to_le_bytes(v));
        assert(dom_fri_leaf() + h_many_tail(pv)
            =~= dom_fri_leaf() + seq![0u8] + spec_u64_to_le_bytes(v));
    }
    shake256_384(inner.as_slice())
}

/// The value of one folded element: `v[i] + alpha * v[i + len/2]` mod p.
pub open spec fn fold_at(values: Seq<Fp>, alpha: Fp, i: int) -> int {
    (values[i].0 + alpha.0 * values[i + values.len() / 2].0) % MODULUS as int
}

/// Whether an oracle inclusion proof passes: the position is in range and
/// the leaf digest of the claimed value folds up to the root.
pub open spec fn spec_verify_opening(c: FriCommitment, proof: OracleProof) -> bool {
    &&& proof.idx < c.oracle.len
    &&& merkle_fold(fri_leaf_of(proof.value.0), proof.idx as nat, views_of(proof.path@))
        == c.oracle.root@
}

/// Whether a pair opening passes under a round root: both positions in
/// range, both leaf digests fold up to the root.
pub open spec fn spec_verify_pair(root: Seq<u8>, len: nat, pair: PairOpening) -> bool {
    &&& pair.lo.idx < len
    &&& pair.hi.idx < len
    &&& merkle_fold(fri_leaf_of(pair.lo.value.0), pair.lo.idx as nat, views_of(pair.lo.path@))
        == root
    &&& merkle_fold(fri_leaf_of(pair.hi.value.0), pair.hi.idx as nat, views_of(pair.hi.path@))
        == root
}

/// The element that folding this pair with `alpha` must produce: the true
/// fold `v[m] + alpha * v[m + half]` at the mapped position m, whichever of
/// the two openings holds the lower index.
pub open spec fn spec_folded_value(alpha: Fp, pair: PairOpening) -> int {
    if pair.lo.idx <= pair.hi.idx {
        (pair.lo.value.0 + alpha.0 * pair.hi.value.0) % MODULUS as int
    } else {
        (pair.hi.value.0 + alpha.0 * pair.lo.value.0) % MODULUS as int
    }
}

/// Whether a pair opening is consistent with the next round's pair: both
/// claimed elements are canonical and the folded value appears in the next
/// oracle at the mapped position.
pub open spec fn spec_folding_chain(alpha: Fp, pair: PairOpening,
    next: Option<PairOpening>) -> bool {
    match next {
        Option::None => true,
        Option::Some(np) => {
            let m = if pair.lo.idx <= pair.hi.idx { pair.lo.idx } else { pair.hi.idx };
            &&& pair.lo.value.canonical()
            &&& pair.hi.value.canonical()
            &&& np.lo.idx == m || np.hi.idx == m
            &&& (np.lo.idx == m ==> np.lo.value.0 == spec_folded_value(alpha, pair))
            &&& (np.hi.idx == m ==> np.hi.value.0 == spec_folded_value(alpha, pair))
        },
    }
}

pub struct FriProver;

impl FriProver {
    /// Commit to a vector of field elements: hash each to a leaf, build the
    /// Merkle tree, return the commitment and the tree for later openings.
    pub fn commit(values: &Vec<Fp>) -> (r: (FriCommitment, MerkleTree))
        requires
            values@.len() >= 1,
            4 * values@.len() <= usize::MAX,
        ensures
            r.0.oracle.len == values@.len(),
            r.0.oracle.root@ == r.1.nodes_spec()[1],
            r.1.wf(),
            values@.len() <= r.1.leaf_count() < 2 * values@.len(),
            forall|i: int|
                0 <= i < r.1.leaf_count() ==> r.1.leaf_at(i) == fri_leaf_of(
                    values@[if i < values@.len() { i } else { values@.len() - 1 }].0),
    {
        let mut leaves: Vec<Vec<u8>> = Vec::new();
        let mut i: usize = 0;
        while i < values.len()
            invariant
                leaves@.len() == i,
                i <= values@.len(),
                forall|q: int|
                    0 <= q < i ==> views_of(leaves@)[q] == fri_leaf_of(values@[q].0),
            decreases values@.len() - i,
        {
            let leaf = fri_leaf(values[i].to_u64());
            let ghost prevl = leaves@;
            leaves.push(leaf);
            i = i + 1;
            proof {
                assert forall|q: int| 0 <= q < i implies
                    views_of(leaves@)[q] == fri_leaf_of(values@[q].0) by {
                    if q < i - 1 {
                        assert(leaves@[q] == prevl[q]);
                        assert(views_of(prevl)[q] == fri_leaf_of(values@[q].0));
                    } else {
                        assert(leaves@[q]@ == fri_leaf_of(values@[q].0));
                    }
                }
            }
        }
        let mt = MerkleTree::build(&leaves);
        let root = mt.root();
        proof {
            assert(forall|q: int| 0 <= q < mt.leaf_count() ==> mt.leaf_at(q)
                == MerkleTree::padded_leaf(views_of(leaves@), q));
        }
        (FriCommitment { oracle: OracleCommitment { root, len: values.len() } }, mt)
    }

    /// Open one oracle position against the committed tree.
    pub fn open(mt: &MerkleTree, idx: usize, value: Fp) -> (r: OracleProof)
        requires
            mt.wf(),
            idx < mt.leaf_count(),
        ensures
            r.idx == idx,
            r.value == value,
            views_of(r.path@) == spec_open(mt.nodes_spec(), mt.leaf_count() + idx as nat),
    {
        let path = mt.open(idx);
        OracleProof { idx, value, path }
    }

    /// Commit to one folding round's oracle.
    pub fn commit_round(values: &Vec<Fp>) -> (r: (FriRoundCommitment, MerkleTree))
        requires
            values@.len() >= 1,
            4 * values@.len() <= usize::MAX,
        ensures
            r.0.len == values@.len(),
            r.0.root@ == r.1.nodes_spec()[1],
            r.1.wf(),
            values@.len() <= r.1.leaf_count() < 2 * values@.len(),
            forall|i: int|
                0 <= i < r.1.leaf_count() ==> r.1.leaf_at(i) == fri_leaf_of(
                    values@[if i < values@.len() { i } else { values@.len() - 1 }].0),
    {
        let (c, mt) = Self::commit(values);
        (FriRoundCommitment { root: c.oracle.root, len: c.oracle.len }, mt)
    }

    /// Open the mirrored pair of positions `pos mod len` and its fold
    /// partner `(pos mod len) XOR len/2`.
    pub fn open_pair(values: &Vec<Fp>, mt: &MerkleTree, pos: usize) -> (r: PairOpening)
        requires
            mt.wf(),
            values@.len() == mt.leaf_count(),
            values@.len() >= 1,
            values@.len() % 2 == 0 || values@.len() == 1,
        ensures
            r.pos == pos as int % values@.len() as int,
            r.lo.idx == r.pos,
            r.hi.idx == (if r.lo.idx < values@.len() / 2 {
                r.lo.idx + values@.len() / 2
            } else {
                r.lo.idx - values@.len() / 2
            }),
            r.lo.value == values@[r.lo.idx as int],
            r.hi.value == values@[r.hi.idx as int],
            views_of(r.lo.path@)
                == spec_open(mt.nodes_spec(), mt.leaf_count() + r.lo.idx as nat),
            views_of(r.hi.path@)
                == spec_open(mt.nodes_spec(), mt.leaf_count() + r.hi.idx as nat),
    {
        let len = values.len();
        let half = len / 2;
        let lo_idx = pos % len;
        let hi_idx = if lo_idx < half { lo_idx + half } else { lo_idx - half };
        let lo_val = values[lo_idx];
        let hi_val = values[hi_idx];
        let lo = Self::open(mt, lo_idx, lo_val);
        let hi = Self::open(mt, hi_idx, hi_val);
        PairOpening { pos: lo_idx, lo, hi }
    }

    /// Fold a vector of even length: `out[i] = v[i] + alpha * v[i + len/2]`.
    pub fn fold_values(alpha: Fp, values: &Vec<Fp>) -> (r: Vec<Fp>)
        requires
            values@.len() % 2 == 0,
            alpha.canonical(),
            all_canonical(values@),
        ensures
            r@.len() == values@.len() / 2,
            forall|i: int| 0 <= i < r@.len() ==> (#[trigger] r@[i]).0
                == fold_at(values@, alpha, i),
            all_canonical(r@),
    {
        let len = values.len();
        let half = len / 2;
        let mut out: Vec<Fp> = Vec::new();
        let mut i: usize = 0;
        while i < half
            invariant
                out@.len() == i,
                i <= half,
                half == values@.len() / 2,
                2 * half == values@.len(),
                2 * half <= usize::MAX,
                alpha.canonical(),
                all_canonical(values@),
                all_canonical(out@),
                forall|q: int| 0 <= q < i ==> (#[trigger] out@[q]).0
                    == fold_at(values@, alpha, q),
            decreases half - i,
        {
            let v = values[i].add(alpha.mul(values[i + half]));
            proof {
                vstd::arithmetic::div_mod::lemma_add_mod_noop_right(
                    values@[i as int].0 as int,
                    alpha.0 * values@[i as int + half].0,
                    MODULUS as int);
            }
            out.push(v);
            i = i + 1;
        }
        out
    }

    /// Draw deterministic out-of-domain points from `seed` and evaluate the
    /// polynomial there by Horner's rule.
    pub fn deep_sample(poly_coeffs: &Vec<Fp>, num_samples: usize, seed: &[u8])
        -> (r: Vec<DeepSample>)
        requires
            all_canonical(poly_coeffs@),
        ensures
            r@.len() == num_samples,
            forall|i: int| 0 <= i < num_samples ==> {
                let h = xof_of(seed@ + spec_u64_to_le_bytes(i as u64), DIGEST_LEN as nat);
                &&& (#[trigger] r@[i]).z.0
                    == spec_u64_from_le_bytes(h.subrange(0, 8)) as int % MODULUS as int
                &&& r@[i].value.0 == poly_eval_spec(poly_coeffs@, r@[i].z.0 as int)
            },
    {
        let mut samples: Vec<DeepSample> = Vec::new();
        let mut i: usize = 0;
        while i < num_samples
            invariant
                samples@.len() == i,
                i <= num_samples,
                all_canonical(poly_coeffs@),
                forall|q: int| 0 <= q < i ==> {
                    let h = xof_of(seed@ + spec_u64_to_le_bytes(q as u64), DIGEST_LEN as nat);
                    &&& (#[trigger] samples@[q]).z.0
                        == spec_u64_from_le_bytes(h.subrange(0, 8)) as int % MODULUS as int
                    &&& samples@[q].value.0 == poly_eval_spec(poly_coeffs@, samples@[q].z.0 as int)
                },
            decreases num_samples - i,
        {
            let mut point_seed = vstd::slice::slice_to_vec(seed);
            let ibytes = u64_to_le_bytes(i as u64);
            point_seed.extend_from_slice(ibytes.as_slice());
            let hash = shake256_384(point_seed.as_slice());
            let z_raw = u64_from_le_bytes(&hash.as_slice()[0..8]);
            let z = Fp::new(z_raw);
            let value = horner_eval(poly_coeffs, z);
            proof {
                assert(point_seed@ =~= seed@ + spec_u64_to_le_bytes(i as u64));
                assert(hash@.subrange(0, 8) =~= hash@.subrange(0, 8));
            }
            samples.push(DeepSample { z, value });
            i = i + 1;
        }
        samples
    }

    /// The quotient of `(f(X) - f(z)) / (X - z)` by synthetic division.
    /// The constant adjustment `f_z` never reaches the quotient coefficients,
    /// so the result is a function of the coefficients and `z` alone.
    pub fn deep_quotient(poly_coeffs: &Vec<Fp>, z: Fp, f_z: Fp) -> (r: Vec<Fp>)
        requires
            all_canonical(poly_coeffs@),
            z.canonical(),
        ensures
            r@.len() == (if poly_coeffs@.len() == 0 { 0int } else { poly_coeffs@.len() - 1 }),
            forall|i: int| 0 <= i < r@.len() ==> (#[trigger] r@[i]).0
                == synth_q(poly_coeffs@, z, i),
            all_canonical(r@),
    {
        let n = poly_coeffs.len();
        if n <= 1 {
            let _ = f_z;
            return Vec::new();
        }
        let mut quotient: Vec<Fp> = Vec::new();
        let mut k: usize = 0;
        while k < n - 1
            invariant
                quotient@.len() == k,
                k <= n - 1,
                n == poly_coeffs@.len(),
            decreases n - 1 - k,
        {
            quotient.push(Fp::zero());
            k = k + 1;
        }
        let mut rem = poly_coeffs[n - 1];
        quotient[n - 2] = rem;
        let mut i: usize = n - 1;
        while i > 1
            invariant
                quotient@.len() == n - 1,
                n == poly_coeffs@.len() >= 2,
                1 <= i <= n - 1,
                all_canonical(poly_coeffs@),
                z.canonical(),
                rem.canonical(),
                rem.0 == synth_q(poly_coeffs@, z, i - 1),
                forall|q: int| i - 1 <= q < n - 1 ==> (#[trigger] quotient@[q]).0
                    == synth_q(poly_coeffs@, z, q),
            decreases i,
        {
            i = i - 1;
            rem = poly_coeffs[i].add(z.mul(rem));
            proof {
                vstd::arithmetic::div_mod::lemma_add_mod_noop_right(
                    poly_coeffs@[i as int].0 as int,
                    z.0 * synth_q(poly_coeffs@, z, i as int),
                    MODULUS as int);
            }
            quotient[i - 1] = rem;
        }
        proof {
            assert(all_canonical(quotient@));
        }
        quotient
    }
}

/// The synthetic-division quotient coefficient at index `i` for dividing a
/// polynomial (shifted by any constant) by `X - z`: the top coefficient at
/// the top, below it `coeffs[i+1] + z * q[i+1]` mod p.
pub open spec fn synth_q(coeffs: Seq<Fp>, z: Fp, i: int) -> int
    decreases coeffs.len() - i when 0 <= i <= coeffs.len() - 2
{
    if i >= coeffs.len() - 2 {
        coeffs[coeffs.len() - 1].0 as int
    } else {
        (coeffs[i + 1].0 + z.0 * synth_q(coeffs, z, i + 1)) % MODULUS as int
    }
}

pub struct FriVerifier;

impl FriVerifier {
    /// Check one oracle inclusion proof against a commitment.
    pub fn verify_opening(commitment: &FriCommitment, proof: &OracleProof) -> (r: bool)
        ensures
            r == spec_verify_opening(*commitment, *proof),
    {
        if proof.idx >= commitment.oracle.len {
            return false;
        }
        let leaf = fri_leaf(proof.value.to_u64());
        MerkleTree::verify(commitment.oracle.root.as_slice(), proof.idx, leaf.as_slice(),
            proof.path.as_slice())
    }

    /// Check both inclusion proofs of a pair opening under a round root.
    pub fn verify_pair(root: &[u8], len: usize, pair: &PairOpening) -> (r: bool)
        ensures
            r == spec_verify_pair(root@, len as nat, *pair),
    {
        if pair.lo.idx >= len || pair.hi.idx >= len {
            return false;
        }
        let leaf_lo = fri_leaf(pair.lo.value.to_u64());
        let leaf_hi = fri_leaf(pair.hi.value.to_u64());
        let ok_lo = MerkleTree::verify(root, pair.lo.idx, leaf_lo.as_slice(),
            pair.lo.path.as_slice());
        let ok_hi = MerkleTree::verify(root, pair.hi.idx, leaf_hi.as_slice(),
            pair.hi.path.as_slice());
        ok_lo && ok_hi
    }

    /// Check the fold relation between one round's pair and the next round's
    /// pair: the value folded out of this pair with `alpha` must stand in
    /// the next oracle at the mapped (lower) position. The terminal round
    /// has no successor and passes by inclusion alone.
    pub fn verify_folding_chain(alpha: Fp, pair: &PairOpening,
        next_pair: Option<&PairOpening>) -> (r: bool)
        requires
            alpha.canonical(),
        ensures
            r == spec_folding_chain(alpha, *pair, match next_pair {
                Option::None => Option::None,
                Option::Some(np) => Option::Some(*np),
            }),
    {
        match next_pair {
            Option::None => true,
            Option::Some(next) => {
                if pair.lo.value.to_u64() >= crate::field::MODULUS
                    || pair.hi.value.to_u64() >= crate::field::MODULUS {
                    return false;
                }
                let m = if pair.lo.idx <= pair.hi.idx { pair.lo.idx } else { pair.hi.idx };
                let expected = if pair.lo.idx <= pair.hi.idx {
                    pair.lo.value.add(alpha.mul(pair.hi.value))
                } else {
                    pair.hi.value.add(alpha.mul(pair.lo.value))
                };
                proof {
                    if pair.lo.idx <= pair.hi.idx {
                        vstd::arithmetic::div_mod::lemma_add_mod_noop_right(
                            pair.lo.value.0 as int,
                            alpha.0 * pair.hi.value.0,
                            MODULUS as int);
                    } else {
                        vstd::arithmetic::div_mod::lemma_add_mod_noop_right(
                            pair.hi.value.0 as int,
                            alpha.0 * pair.lo.value.0,
                            MODULUS as int);
                    }
                }
                if next.lo.idx != m && next.hi.idx != m {
                    return false;
                }
                let lo_ok = next.lo.idx != m || next.lo.value.to_u64() == expected.to_u64();
                let hi_ok = next.hi.idx != m || next.hi.value.to_u64() == expected.to_u64();
                lo_ok && hi_ok
            },
        }
    }
}

/// An honestly opened pair passes pair verification: both positions of an
/// `open_pair` result Merkle-verify under the tree's root. When the opened
/// position lies in the lower half, the pair's values fold to the folded
/// oracle's element at that position.
pub proof fn lemma_pair_opening_verifies(t: MerkleTree, values: Seq<Fp>, alpha: Fp,
    pos: nat)
    requires
        t.wf(),
        values.len() == t.leaf_count(),
        values.len() >= 2,
        values.len() % 2 == 0,
        alpha.canonical(),
        forall|i: int| 0 <= i < values.len() ==> t.leaf_at(i) == fri_leaf_of(
            (#[trigger] values[i]).0),
        pos % values.len() < values.len() / 2,
    ensures
        merkle_fold(fri_leaf_of(values[(pos % values.len()) as int].0), pos % values.len(),
            spec_open(t.nodes_spec(), t.leaf_count() + pos % values.len()))
            == t.nodes_spec()[1],
        merkle_fold(fri_leaf_of(values[(pos % values.len() + values.len() / 2) as int].0),
            pos % values.len() + values.len() / 2,
            spec_open(t.nodes_spec(), t.leaf_count() + pos % values.len() + values.len() / 2))
            == t.nodes_spec()[1],
        (values[(pos % values.len()) as int].0
            + alpha.0 * values[(pos % values.len() + values.len() / 2) as int].0)
            % MODULUS as int
            == fold_at(values, alpha, (pos % values.len()) as int),
{
    let len = values.len();
    let m = pos % len;
    crate::merkle::lemma_merkle_open_verifies(t, m);
    crate::merkle::lemma_merkle_open_verifies(t, m + len / 2);
}

} // verus!
