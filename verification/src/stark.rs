//! The prover and verifier for the Fibonacci AIR: a proof carries the trace
//! commitment, Fiat-Shamir-bound query openings, and the FRI oracle with its
//! folding rounds. `fib_proof_valid` is the exact meaning of verification;
//! `verify_fib` decides it and `prove_fib` establishes it.

use vstd::prelude::*;
use vstd::arithmetic::power2::pow2;
use vstd::bytes::{spec_u32_from_le_bytes, spec_u32_to_le_bytes, spec_u64_from_le_bytes,
    spec_u64_to_le_bytes, u32_from_le_bytes, u32_to_le_bytes, u64_from_le_bytes,
    u64_to_le_bytes};
use crate::field::{Fp, MODULUS};
use crate::hash::{Transcript, absorb_input, xof_of, views_of, h_many, h_many_tail,
    shake256_384, rng_word_of, dom_row, dom_transcript, dom_proof_digest, dom_accumulator,
    lab_air_id, lab_pub_input, lab_root, dom_row_bytes, dom_transcript_bytes,
    dom_proof_digest_bytes, dom_accumulator_bytes, lab_air_id_bytes, lab_pub_input_bytes,
    lab_root_bytes, DIGEST_LEN};
use crate::merkle::{MerkleTree, merkle_fold, spec_open, is_pow2, eq_bytes};
use crate::fri::{FriCommitment, FriQuery, FriRoundCommitment, FriMultiCommitment,
    FriRoundQuery, FriMultiQuery, PairOpening, FriProver, FriVerifier, fri_leaf_of,
    fold_at, spec_verify_opening, spec_verify_pair, spec_folding_chain,
    spec_folded_value};
use crate::air::{FibonacciAir, FibPublic, fib_f, fib_id_bytes, fib_air_id_bytes,
    spec_check_row, row_bytes_of, row_elem_of, row_to_bytes, bytes_to_fps,
    lemma_row_bytes_roundtrip, lemma_row_bytes_len};
use crate::poly::{all_canonical, spec_next_pow2, lemma_spec_next_pow2,
    lemma_pow2_window_unique, eval_poly_on_domain, vanishing_on_extended, lde_from_evals};

verus! {

/// One sampled-row opening: the row bytes with their Merkle path, and the
/// next row with its path when one exists.
#[derive(Clone, Debug)]
pub struct Opening {
    pub idx: usize,
    pub row: Vec<u8>,
    pub next_row: Option<Vec<u8>>,
    pub path_row: Vec<Vec<u8>>,
    pub path_next: Option<Vec<Vec<u8>>>,
}

/// The version-1 proof record. Field order and integer endianness are part
/// of the wire contract.
#[derive(Clone, Debug)]
pub struct ProofV1 {
    pub version: u8,
    pub air_id: Vec<u8>,
    pub pub_input_enc: Vec<u8>,
    pub merkle_root: Vec<u8>,
    pub n_rows: usize,
    pub n_cols: usize,
    pub queries: usize,
    pub openings: Vec<Opening>,
    pub fri_commitment: Option<FriCommitment>,
    pub fri_queries: Option<Vec<FriQuery>>,
    pub fri_rounds: Option<FriMultiCommitment>,
    pub fri_round_queries: Option<Vec<FriMultiQuery>>,
    pub proof_digest: Vec<u8>,
}

pub type Proof = ProofV1;

/// FRI parameters: log2 of the blowup, number of folding rounds, number of
/// query positions.
#[derive(Clone, Copy, Debug)]
pub struct FriConfig {
    pub blowup_log2: u32,
    pub num_rounds: u32,
    pub queries: usize,
}

impl Default for FriConfig {
    /// The production default parameter set.
    fn default() -> (r: Self)
        ensures
            r.blowup_log2 == 3,
            r.num_rounds == 5,
            r.queries == 80,
    {
        FriConfig { blowup_log2: 3, num_rounds: 5, queries: 80 }
    }
}

/// The canonical byte encoding of the Fibonacci public input: fixed-width
/// little-endian fields in declaration order.
pub open spec fn fib_public_bytes(p: FibPublic) -> Seq<u8> {
    spec_u32_to_le_bytes(p.steps) + spec_u64_to_le_bytes(p.a0) + spec_u64_to_le_bytes(p.a1)
        + spec_u64_to_le_bytes(p.expected_first)
}

/// The public input read back from its canonical 28-byte encoding.
pub open spec fn decoded_fib_public(b: Seq<u8>) -> FibPublic {
    FibPublic {
        steps: spec_u32_from_le_bytes(b.subrange(0, 4)),
        a0: spec_u64_from_le_bytes(b.subrange(4, 12)),
        a1: spec_u64_from_le_bytes(b.subrange(12, 20)),
        expected_first: spec_u64_from_le_bytes(b.subrange(20, 28)),
    }
}

/// Encode the public input canonically.
pub fn encode_fib_public(p: &FibPublic) -> (r: Vec<u8>)
    ensures
        r@ == fib_public_bytes(*p),
        r@.len() == 28,
{
    proof {
        vstd::bytes::lemma_auto_spec_u32_to_from_le_bytes();
        vstd::bytes::lemma_auto_spec_u64_to_from_le_bytes();
    }
    let mut v = u32_to_le_bytes(p.steps);
    let b0 = u64_to_le_bytes(p.a0);
    v.extend_from_slice(b0.as_slice());
    let b1 = u64_to_le_bytes(p.a1);
    v.extend_from_slice(b1.as_slice());
    let b2 = u64_to_le_bytes(p.expected_first);
    v.extend_from_slice(b2.as_slice());
    proof {
        assert(v@ =~= fib_public_bytes(*p));
    }
    v
}

/// Decode a canonical public-input encoding; any other length is rejected.
pub fn decode_fib_public(b: &[u8]) -> (r: Option<FibPublic>)
    ensures
        r is Some <==> b@.len() == 28,
        match r {
            Option::Some(p) => p == decoded_fib_public(b@),
            Option::None => true,
        },
{
    if b.len() != 28 {
        return None;
    }
    let steps = u32_from_le_bytes(&b[0..4]);
    let a0 = u64_from_le_bytes(&b[4..12]);
    let a1 = u64_from_le_bytes(&b[12..20]);
    let expected_first = u64_from_le_bytes(&b[20..28]);
    Some(FibPublic { steps, a0, a1, expected_first })
}

/// Decoding inverts encoding of the public input.
pub proof fn lemma_fib_public_roundtrip(p: FibPublic)
    ensures
        fib_public_bytes(p).len() == 28,
        decoded_fib_public(fib_public_bytes(p)) == p,
{
    vstd::bytes::lemma_auto_spec_u32_to_from_le_bytes();
    vstd::bytes::lemma_auto_spec_u64_to_from_le_bytes();
    let b = fib_public_bytes(p);
    assert(b.subrange(0, 4) =~= spec_u32_to_le_bytes(p.steps));
    assert(b.subrange(4, 12) =~= spec_u64_to_le_bytes(p.a0));
    assert(b.subrange(12, 20) =~= spec_u64_to_le_bytes(p.a1));
    assert(b.subrange(20, 28) =~= spec_u64_to_le_bytes(p.expected_first));
}

/// The transcript state after binding the AIR id, the encoded public input,
/// and the trace commitment root.
pub open spec fn fs_state_of(air_id: Seq<u8>, pub_enc: Seq<u8>, root: Seq<u8>) -> Seq<u8> {
    xof_of(absorb_input(
        xof_of(absorb_input(
            xof_of(absorb_input(dom_transcript(), lab_air_id(), air_id), DIGEST_LEN as nat),
            lab_pub_input(), pub_enc), DIGEST_LEN as nat),
        lab_root(), root), DIGEST_LEN as nat)
}

/// The folding challenge drawn from a transcript state.
pub open spec fn alpha_of(st: Seq<u8>) -> Fp {
    Fp((spec_u64_from_le_bytes(xof_of(st, 8)) as int % MODULUS as int) as u64)
}

/// Query word `k` of the generator seeded from a transcript state.
pub open spec fn qword(st: Seq<u8>, k: int) -> u64 {
    rng_word_of(xof_of(st, 32), k as nat)
}

/// The Merkle leaf digest of a row byte string.
pub open spec fn row_leaf_of(bytes: Seq<u8>) -> Seq<u8> {
    xof_of(xof_of(dom_row() + seq![0u8] + bytes, DIGEST_LEN as nat), DIGEST_LEN as nat)
}

/// The two field elements decoded from a 16-byte row.
pub open spec fn decoded_row(b: Seq<u8>) -> Seq<Fp> {
    seq![Fp(row_elem_of(b, 0) as u64), Fp(row_elem_of(b, 1) as u64)]
}

/// Whether the row opening for query `k` passes: the sampled index matches
/// the Fiat-Shamir word, the row (and next row, when present) Merkle-verify
/// under the trace root, and the decoded rows satisfy the row predicate.
pub open spec fn opening_ok(st: Seq<u8>, root: Seq<u8>, n_rows: int, pubv: FibPublic,
    o: Opening, k: int) -> bool {
    &&& o.idx == qword(st, k) as int % n_rows
    &&& o.row@.len() == 16
    &&& merkle_fold(row_leaf_of(o.row@), o.idx as nat, views_of(o.path_row@)) == root
    &&& match (o.next_row, o.path_next) {
        (Option::Some(nb), Option::Some(np)) => {
            &&& nb@.len() == 16
            &&& merkle_fold(row_leaf_of(nb@), (o.idx + 1) as nat, views_of(np@)) == root
            &&& spec_check_row(o.idx as nat, decoded_row(o.row@),
                Option::Some(decoded_row(nb@)), pubv)
        },
        (Option::None, Option::None) => spec_check_row(o.idx as nat, decoded_row(o.row@),
            Option::None, pubv),
        _ => false,
    }
}

/// Whether the FRI oracle opening for query `k` passes: the commitment's
/// length is a power-of-two blowup of the padded trace length, the opened
/// position is the mapped extended index, and the inclusion proof verifies.
pub open spec fn fri_query_ok(c: FriCommitment, qs: Seq<FriQuery>, n_rows: int,
    o_idx: int, queries: int, k: int) -> bool {
    let base = spec_next_pow2(n_rows as nat) as int;
    let ratio = c.oracle.len as int / base;
    &&& qs.len() >= queries
    &&& c.oracle.len as int <= 0x1_0000_0000
    &&& c.oracle.len as int % base == 0
    &&& is_pow2(ratio as nat)
    &&& qs[k].oracle_proof.idx == o_idx * ratio
    &&& spec_verify_opening(c, qs[k].oracle_proof)
}

/// Whether round `j` of a query's folding chain passes: the pair verifies
/// under the round's root and folds consistently into the next round.
pub open spec fn round_ok(alpha: Fp, rs: FriMultiCommitment, mq: FriMultiQuery,
    j: int) -> bool {
    &&& spec_verify_pair(rs.rounds@[j].root@, rs.rounds@[j].len as nat, mq.rounds@[j].pair)
    &&& spec_folding_chain(alpha, mq.rounds@[j].pair,
        if j + 1 < rs.rounds@.len() {
            Option::Some(mq.rounds@[j + 1].pair)
        } else {
            Option::None
        })
}

/// Whether the folding rounds for query `k` pass, including the requirement
/// that more than one round must actually shrink the oracle.
pub open spec fn rounds_ok(alpha: Fp, rs: FriMultiCommitment, rqs: Seq<FriMultiQuery>,
    queries: int, k: int) -> bool {
    &&& rqs.len() >= queries
    &&& rqs[k].rounds@.len() == rs.rounds@.len()
    &&& forall|j: int| 0 <= j < rs.rounds@.len() ==> round_ok(alpha, rs, rqs[k], j)
    &&& (rs.rounds@.len() > 1 ==> rs.rounds@.last().len < rs.rounds@.first().len)
}

/// All checks of query `k`.
pub open spec fn query_ok(p: ProofV1, k: int) -> bool {
    let st = fs_state_of(p.air_id@, p.pub_input_enc@, p.merkle_root@);
    &&& opening_ok(st, p.merkle_root@, p.n_rows as int,
        decoded_fib_public(p.pub_input_enc@), p.openings@[k], k)
    &&& match (p.fri_commitment, p.fri_queries) {
        (Option::Some(c), Option::Some(qs)) => fri_query_ok(c, qs@, p.n_rows as int,
            p.openings@[k].idx as int, p.queries as int, k),
        _ => true,
    }
    &&& match (p.fri_rounds, p.fri_round_queries) {
        (Option::Some(rs), Option::Some(rqs)) => rounds_ok(alpha_of(st), rs, rqs@,
            p.queries as int, k),
        _ => true,
    }
}

/// The expected proof digest over the root, public input, and query count.
pub open spec fn digest_ok(p: ProofV1) -> bool {
    p.proof_digest@ == xof_of(dom_proof_digest() + h_many_tail(
        seq![p.merkle_root@, p.pub_input_enc@, spec_u64_to_le_bytes(p.queries as u64)]),
        DIGEST_LEN as nat)
}

/// What it means for a version-1 proof to be accepted: the identifying
/// fields are right, the public input decodes, every sampled query passes
/// its Merkle, row-predicate, and FRI checks, and the digest matches.
pub open spec fn fib_proof_valid(p: ProofV1) -> bool {
    &&& p.version == 1
    &&& p.air_id@ == fib_id_bytes()
    &&& p.pub_input_enc@.len() == 28
    &&& (p.queries > 0 ==> 1 <= p.n_rows && p.n_rows as int <= 0x1_0000_0000)
    &&& p.openings@.len() >= p.queries
    &&& forall|k: int| 0 <= k < p.queries ==> query_ok(p, k)
    &&& digest_ok(p)
}

/// Whether x is a power of two, decided by repeated halving.
pub fn is_pow2_u64(x: u64) -> (r: bool)
    ensures
        r == is_pow2(x as nat),
{
    if x == 0 {
        return false;
    }
    let mut m = x;
    while m > 1
        invariant
            m >= 1,
            is_pow2(x as nat) == is_pow2(m as nat),
        decreases m,
    {
        if m % 2 != 0 {
            return false;
        }
        m = m / 2;
    }
    true
}

/// Smallest power of two at or above `x`, in 64-bit arithmetic.
pub fn next_pow2_u64(x: u64) -> (r: u64)
    requires
        1 <= x <= 0x8000_0000_0000_0000,
    ensures
        r == spec_next_pow2(x as nat),
        is_pow2(r as nat),
        x <= r < 2 * x,
{
    let mut m: u64 = 1;
    while m < x
        invariant
            is_pow2(m as nat),
            1 <= m,
            m < 2 * x,
            x <= 0x8000_0000_0000_0000,
        decreases 2 * x - m,
    {
        m = m * 2;
    }
    proof {
        lemma_spec_next_pow2(x as nat);
        lemma_pow2_window_unique(m as nat, spec_next_pow2(x as nat), x as nat);
    }
    m
}

/// Compute the Merkle leaf digest of a row byte string.
pub fn row_leaf(bytes: &[u8]) -> (r: Vec<u8>)
    ensures
        r@ == row_leaf_of(bytes@),
        r@.len() == DIGEST_LEN,
{
    let mut parts: Vec<Vec<u8>> = Vec::new();
    parts.push(vstd::slice::slice_to_vec(bytes));
    let label = dom_row_bytes();
    let inner = h_many(label.as_slice(), &parts);
    proof {
        let pv = views_of(parts@);
        assert(pv.len() == 1);
        assert(pv.last() == bytes@);
        assert(pv.drop_last() =~= Seq::<Seq<u8>>::empty());
        assert(h_many_tail(pv.drop_last()) == Seq::<u8>::empty());
        assert(h_many_tail(pv) =~= seq![0u8] + bytes@);
        assert(dom_row() + h_many_tail(pv) =~= dom_row() + seq![0u8] + bytes@);
    }
    shake256_384(inner.as_slice())
}

pub struct Verifier;

impl Verifier {
    /// Replay the Fiat-Shamir transcript and check every opening, FRI
    /// query, folding round, and the final digest of a claimed proof.
    /// Returns exactly whether the proof is valid; it never panics, on any
    /// input.
    pub fn verify_fib(proof: &ProofV1) -> (r: bool)
        ensures
            r == fib_proof_valid(*proof),
    {
        if proof.version != 1 {
            return false;
        }
        let idb = fib_air_id_bytes();
        if !eq_bytes(proof.air_id.as_slice(), idb.as_slice()) {
            return false;
        }
        let pub_inp = match decode_fib_public(proof.pub_input_enc.as_slice()) {
            Option::Some(p) => p,
            Option::None => {
                return false;
            },
        };
        if proof.queries > 0 {
            if proof.n_rows == 0 || proof.n_rows as u64 > 0x1_0000_0000u64 {
                return false;
            }
        }
        if proof.openings.len() < proof.queries {
            return false;
        }
        // rebuild the transcript to bind challenges and query positions
        let domain = dom_transcript_bytes();
        let mut tr = Transcript::new(domain.as_slice());
        let l_air = lab_air_id_bytes();
        tr.absorb(l_air.as_slice(), proof.air_id.as_slice());
        let l_pub = lab_pub_input_bytes();
        tr.absorb(l_pub.as_slice(), proof.pub_input_enc.as_slice());
        let l_root = lab_root_bytes();
        tr.absorb(l_root.as_slice(), proof.merkle_root.as_slice());
        let ghost st = fs_state_of(proof.air_id@, proof.pub_input_enc@, proof.merkle_root@);
        proof {
            assert(tr@ == st);
        }
        let alpha = Fp::new(tr.challenge_u64());
        proof {
            assert(alpha == alpha_of(st));
        }
        let words = tr.challenge_words(proof.queries);
        let mut k: usize = 0;
        while k < proof.queries
            invariant
                k <= proof.queries,
                proof.openings@.len() >= proof.queries,
                proof.queries > 0 ==> 1 <= proof.n_rows
                    && proof.n_rows as int <= 0x1_0000_0000,
                words@.len() == proof.queries,
                forall|i: int| 0 <= i < proof.queries ==> words@[i] == qword(st, i),
                st == fs_state_of(proof.air_id@, proof.pub_input_enc@, proof.merkle_root@),
                alpha == alpha_of(st),
                pub_inp == decoded_fib_public(proof.pub_input_enc@),
                forall|q: int| 0 <= q < k ==> query_ok(*proof, q),
            decreases proof.queries - k,
        {
            let expected_idx: u64 = words[k] % (proof.n_rows as u64);
            let o = &proof.openings[k];
            if o.idx as u64 != expected_idx {
                proof {
                    assert(o.idx as int != qword(st, k as int) as int % proof.n_rows as int);
                    assert(!query_ok(*proof, k as int));
                }
                return false;
            }
            if o.row.len() != 16 {
                proof {
                    assert(!query_ok(*proof, k as int));
                }
                return false;
            }
            let leaf = row_leaf(o.row.as_slice());
            if !MerkleTree::verify(proof.merkle_root.as_slice(), o.idx, leaf.as_slice(),
                o.path_row.as_slice()) {
                proof {
                    assert(!query_ok(*proof, k as int));
                }
                return false;
            }
            let row_fps = match bytes_to_fps(o.row.as_slice()) {
                Option::Some(v) => v,
                Option::None => {
                    return false;
                },
            };
            proof {
                assert(row_fps@[0] == Fp(row_elem_of(o.row@, 0) as u64));
                assert(row_fps@[1] == Fp(row_elem_of(o.row@, 1) as u64));
                assert(row_fps@ =~= decoded_row(o.row@));
            }
            let row_check = match (&o.next_row, &o.path_next) {
                (Option::Some(nb), Option::Some(np)) => {
                    if nb.len() != 16 {
                        proof {
                            assert(!query_ok(*proof, k as int));
                        }
                        return false;
                    }
                    let nleaf = row_leaf(nb.as_slice());
                    if !MerkleTree::verify(proof.merkle_root.as_slice(), o.idx + 1,
                        nleaf.as_slice(), np.as_slice()) {
                        proof {
                            assert(!query_ok(*proof, k as int));
                        }
                        return false;
                    }
                    let next_fps = match bytes_to_fps(nb.as_slice()) {
                        Option::Some(v) => v,
                        Option::None => {
                            return false;
                        },
                    };
                    proof {
                        assert(next_fps@[0] == Fp(row_elem_of(nb@, 0) as u64));
                        assert(next_fps@[1] == Fp(row_elem_of(nb@, 1) as u64));
                        assert(next_fps@ =~= decoded_row(nb@));
                    }
                    FibonacciAir::check_row(o.idx, row_fps.as_slice(),
                        Option::Some(next_fps.as_slice()), &pub_inp)
                },
                (Option::None, Option::None) => {
                    FibonacciAir::check_row(o.idx, row_fps.as_slice(), Option::None,
                        &pub_inp)
                },
                _ => {
                    proof {
                        assert(!query_ok(*proof, k as int));
                    }
                    return false;
                },
            };
            if !row_check {
                proof {
                    assert(!query_ok(*proof, k as int));
                }
                return false;
            }
            proof {
                assert(opening_ok(st, proof.merkle_root@, proof.n_rows as int, pub_inp,
                    proof.openings@[k as int], k as int));
            }
            // FRI oracle opening at the mapped extended index
            match (&proof.fri_commitment, &proof.fri_queries) {
                (Option::Some(c), Option::Some(qs)) => {
                    if qs.len() < proof.queries {
                        proof {
                            assert(!query_ok(*proof, k as int));
                        }
                        return false;
                    }
                    if c.oracle.len as u64 > 0x1_0000_0000u64 {
                        proof {
                            assert(!query_ok(*proof, k as int));
                        }
                        return false;
                    }
                    let base = next_pow2_u64(proof.n_rows as u64);
                    if (c.oracle.len as u64) % base != 0 {
                        proof {
                            assert(!query_ok(*proof, k as int));
                        }
                        return false;
                    }
                    let ratio = (c.oracle.len as u64) / base;
                    if !is_pow2_u64(ratio) {
                        proof {
                            assert(!query_ok(*proof, k as int));
                        }
                        return false;
                    }
                    proof {
                        vstd::arithmetic::mul::lemma_mul_upper_bound(
                            o.idx as int, u64::MAX as int, ratio as int, u64::MAX as int);
                    }
                    if (qs[k].oracle_proof.idx as u128)
                        != (o.idx as u128) * (ratio as u128) {
                        proof {
                            assert(qs@[k as int].oracle_proof.idx as int
                                != o.idx as int * ratio as int);
                            assert(!query_ok(*proof, k as int));
                        }
                        return false;
                    }
                    if !FriVerifier::verify_opening(c, &qs[k].oracle_proof) {
                        proof {
                            assert(!query_ok(*proof, k as int));
                        }
                        return false;
                    }
                    proof {
                        assert(fri_query_ok(*c, qs@, proof.n_rows as int,
                            proof.openings@[k as int].idx as int, proof.queries as int,
                            k as int));
                    }
                },
                _ => {},
            }
            // folding rounds
            match (&proof.fri_rounds, &proof.fri_round_queries) {
                (Option::Some(rs), Option::Some(rqs)) => {
                    if rqs.len() < proof.queries {
                        proof {
                            assert(!query_ok(*proof, k as int));
                        }
                        return false;
                    }
                    let mq = &rqs[k];
                    if mq.rounds.len() != rs.rounds.len() {
                        proof {
                            assert(!query_ok(*proof, k as int));
                        }
                        return false;
                    }
                    let mut j: usize = 0;
                    while j < rs.rounds.len()
                        invariant
                            j <= rs.rounds@.len(),
                            mq.rounds@.len() == rs.rounds@.len(),
                            alpha.canonical(),
                            k < proof.queries,
                            st == fs_state_of(proof.air_id@, proof.pub_input_enc@,
                                proof.merkle_root@),
                            alpha == alpha_of(st),
                            proof.fri_rounds == Option::Some(*rs),
                            proof.fri_round_queries == Option::Some(*rqs),
                            rqs@.len() >= proof.queries,
                            *mq == rqs@[k as int],
                            forall|jj: int| 0 <= jj < j
                                ==> round_ok(alpha, *rs, *mq, jj),
                        decreases rs.rounds@.len() - j,
                    {
                        let rc = &rs.rounds[j];
                        let q = &mq.rounds[j];
                        if !FriVerifier::verify_pair(rc.root.as_slice(), rc.len, &q.pair) {
                            proof {
                                assert(!round_ok(alpha, *rs, *mq, j as int));
                                assert(!rounds_ok(alpha_of(st), *rs, rqs@,
                                    proof.queries as int, k as int));
                                assert(!query_ok(*proof, k as int));
                            }
                            return false;
                        }
                        let chain_ok = if j + 1 < rs.rounds.len() {
                            FriVerifier::verify_folding_chain(alpha, &q.pair,
                                Option::Some(&mq.rounds[j + 1].pair))
                        } else {
                            FriVerifier::verify_folding_chain(alpha, &q.pair, Option::None)
                        };
                        if !chain_ok {
                            proof {
                                assert(!round_ok(alpha, *rs, *mq, j as int));
                                assert(!rounds_ok(alpha_of(st), *rs, rqs@,
                                    proof.queries as int, k as int));
                                assert(!query_ok(*proof, k as int));
                            }
                            return false;
                        }
                        j = j + 1;
                    }
                    if rs.rounds.len() > 1 {
                        let first_len = rs.rounds[0].len;
                        let last_len = rs.rounds[rs.rounds.len() - 1].len;
                        if last_len >= first_len {
                            proof {
                                assert(!rounds_ok(alpha_of(st), *rs, rqs@,
                                    proof.queries as int, k as int));
                                assert(!query_ok(*proof, k as int));
                            }
                            return false;
                        }
                    }
                    proof {
                        assert(rounds_ok(alpha_of(st), *rs, rqs@, proof.queries as int,
                            k as int));
                    }
                },
                _ => {},
            }
            proof {
                assert(query_ok(*proof, k as int));
            }
            k = k + 1;
        }
        // digest check
        let mut parts: Vec<Vec<u8>> = Vec::new();
        parts.push(proof.merkle_root.clone());
        parts.push(proof.pub_input_enc.clone());
        parts.push(u64_to_le_bytes(proof.queries as u64));
        let dlabel = dom_proof_digest_bytes();
        let expect = h_many(dlabel.as_slice(), &parts);
        proof {
            let pv = views_of(parts@);
            assert(pv =~= seq![proof.merkle_root@, proof.pub_input_enc@,
                spec_u64_to_le_bytes(proof.queries as u64)]);
        }
        eq_bytes(proof.proof_digest.as_slice(), expect.as_slice())
    }
}

/// What `open_pair` produces for oracle `vals` committed in tree `t` at
/// position `pos`: the mirrored indices, the oracle's own elements, and the
/// trees' opening paths.
pub open spec fn honest_pair(vals: Seq<Fp>, t: MerkleTree, pos: int, pr: PairOpening)
    -> bool {
    let len = vals.len() as int;
    let half = len / 2;
    let lo = pos % len;
    &&& pr.pos == lo
    &&& pr.lo.idx == lo
    &&& pr.hi.idx == if lo < half { lo + half } else { lo - half }
    &&& pr.lo.value == vals[lo]
    &&& pr.hi.value == vals[pr.hi.idx as int]
    &&& views_of(pr.lo.path@) == spec_open(t.nodes_spec(), t.leaf_count() + pr.lo.idx as nat)
    &&& views_of(pr.hi.path@) == spec_open(t.nodes_spec(), t.leaf_count() + pr.hi.idx as nat)
}

/// Reducing modulo a power of two and then modulo its half equals reducing
/// modulo the half directly.
proof fn lemma_mod_halving(x: int, h: int)
    requires
        h >= 1,
        x >= 0,
    ensures
        (x % (2 * h)) % h == x % h,
{
    vstd::arithmetic::div_mod::lemma_breakdown(x, h, 2);
    vstd::arithmetic::div_mod::lemma_mod_multiples_vanish((x / h) % 2, x % h, h);
    vstd::arithmetic::div_mod::lemma_mod_division_less_than_divisor(x, h);
    vstd::arithmetic::div_mod::lemma_small_mod((x % h) as nat, h as nat);
}

/// An honestly opened pair passes verification under its own commitment.
proof fn lemma_honest_pair_verifies(vals: Seq<Fp>, t: MerkleTree, pos: int,
    pr: PairOpening, root: Seq<u8>, rlen: nat)
    requires
        honest_pair(vals, t, pos, pr),
        t.wf(),
        vals.len() == t.leaf_count(),
        vals.len() >= 1,
        pos >= 0,
        forall|i: int| 0 <= i < vals.len() ==> t.leaf_at(i) == fri_leaf_of(
            (#[trigger] vals[i]).0),
        root == t.nodes_spec()[1],
        rlen == vals.len(),
    ensures
        spec_verify_pair(root, rlen, pr),
{
    let len = vals.len() as int;
    vstd::arithmetic::div_mod::lemma_mod_division_less_than_divisor(pos, len);
    vstd::arithmetic::div_mod::lemma_mod_bound(pos, len);
    crate::merkle::lemma_merkle_open_verifies(t, pr.lo.idx as nat);
    crate::merkle::lemma_merkle_open_verifies(t, pr.hi.idx as nat);
}

/// Consecutive honest pairs of a folding chain are consistent: the value
/// folded out of one round's pair stands in the next round's oracle at the
/// mapped position, which the next pair opens.
proof fn lemma_honest_chain(vals_j: Seq<Fp>, t_j: MerkleTree, vals_n: Seq<Fp>,
    t_n: MerkleTree, ext: int, pr_j: PairOpening, pr_n: PairOpening, alpha: Fp)
    requires
        honest_pair(vals_j, t_j, ext, pr_j),
        honest_pair(vals_n, t_n, ext, pr_n),
        ext >= 0,
        vals_j.len() >= 2,
        vals_j.len() % 2 == 0,
        2 * vals_n.len() == vals_j.len(),
        alpha.canonical(),
        all_canonical(vals_j),
        forall|i: int| 0 <= i < vals_n.len() ==> (#[trigger] vals_n[i]).0
            == fold_at(vals_j, alpha, i),
    ensures
        spec_folding_chain(alpha, pr_j, Option::Some(pr_n)),
{
    let len = vals_j.len() as int;
    let half = len / 2;
    let lo = ext % len;
    vstd::arithmetic::div_mod::lemma_mod_bound(ext, len);
    vstd::arithmetic::div_mod::lemma_mod_bound(ext, half);
    lemma_mod_halving(ext, half);
    let m = if pr_j.lo.idx <= pr_j.hi.idx { pr_j.lo.idx as int } else { pr_j.hi.idx as int };
    assert(ext % half == (ext % len) % half);
    if lo < half {
        vstd::arithmetic::div_mod::lemma_small_mod(lo as nat, half as nat);
        assert(m == lo);
    } else {
        assert(lo % half == lo - half) by {
            vstd::arithmetic::div_mod::lemma_mod_sub_multiples_vanish(lo, half);
            vstd::arithmetic::div_mod::lemma_small_mod((lo - half) as nat, half as nat);
        }
        assert(m == lo - half);
    }
    assert(pr_n.lo.idx == ext % half);
    assert(pr_n.lo.idx == m);
    assert(pr_n.lo.value.0 == fold_at(vals_j, alpha, m));
    assert(spec_folded_value(alpha, pr_j) == fold_at(vals_j, alpha, m));
    if pr_n.hi.idx == m {
        assert(vals_n.len() == half);
        let half_n = half / 2;
        assert(pr_n.hi.idx == if m < half_n { m + half_n } else { m - half_n });
        assert(half_n == 0 || pr_n.hi.idx != m || m == 0 && half_n == 0);
        assert(pr_n.hi.value.0 == fold_at(vals_j, alpha, m));
    }
}

/// The shape of the folding-round bookkeeping after `j + 1` rounds: each
/// entry holds the folded oracle, its committed tree, and the fold relation
/// to the previous entry.
pub open spec fn round_entry_ok(rd: Seq<(Vec<Fp>, MerkleTree)>, rc: Seq<FriRoundCommitment>,
    alpha: Fp, ext: int, j: int) -> bool {
    let vals = rd[j].0@;
    let t = rd[j].1;
    &&& t.wf()
    &&& vals.len() == t.leaf_count()
    &&& vals.len() >= 1
    &&& is_pow2(vals.len() as nat)
    &&& all_canonical(vals)
    &&& vals.len() as int * pow2((j + 1) as nat) as int == ext
    &&& forall|i: int| 0 <= i < vals.len() ==> t.leaf_at(i) == fri_leaf_of(
        (#[trigger] vals[i]).0)
    &&& rc[j].root@ == t.nodes_spec()[1]
    &&& rc[j].len == vals.len()
    &&& (j >= 1 ==> 2 * vals.len() == rd[j - 1].0@.len()
        && forall|i: int| 0 <= i < vals.len() ==> (#[trigger] vals[i]).0
            == fold_at(rd[j - 1].0@, alpha, i))
}

/// The preconditions of proof construction: canonical seeds, a step count
/// whose padded, blown-up domain fits the field's 2^32-smooth subgroup and
/// the address space, and no more folds than the domain can halve.
pub open spec fn prove_fib_pre(air: FibonacciAir, cfg: FriConfig) -> bool {
    &&& air.a0.canonical()
    &&& air.a1.canonical()
    &&& air.steps + 1 <= u32::MAX
    &&& spec_next_pow2((air.steps + 1) as nat) * pow2(cfg.blowup_log2 as nat)
        <= 0x1_0000_0000
    &&& 4 * (spec_next_pow2((air.steps + 1) as nat) * pow2(cfg.blowup_log2 as nat))
        <= usize::MAX
    &&& 4 * (air.steps + 1) <= usize::MAX
    &&& pow2(cfg.num_rounds as nat)
        <= spec_next_pow2((air.steps + 1) as nat) * pow2(cfg.blowup_log2 as nat)
}

/// The public input the Fibonacci AIR declares.
pub open spec fn air_public(air: FibonacciAir) -> FibPublic {
    FibPublic {
        steps: air.steps as u32,
        a0: air.a0.0,
        a1: air.a1.0,
        expected_first: fib_f(air.a0.0 as int, air.a1.0 as int, (air.steps + 1 - 1) as nat)
            as u64,
    }
}

pub struct Prover {
    pub cfg: FriConfig,
}

impl Default for Prover {
    /// A prover with the default FRI parameters.
    fn default() -> (r: Self)
        ensures
            r.cfg.blowup_log2 == 3,
            r.cfg.num_rounds == 5,
            r.cfg.queries == 80,
    {
        Prover { cfg: FriConfig::default() }
    }
}

impl Prover {
    /// Build a proof for the Fibonacci AIR: commit to the trace rows, bind
    /// the AIR id, public input, and root into the transcript, commit the
    /// masked composition oracle, fold it the configured number of rounds,
    /// and open every Fiat-Shamir-sampled query. The proof it returns is
    /// valid: `verify_fib` accepts it.
    #[verifier::rlimit(100)]
    pub fn prove_fib(&self, air: &FibonacciAir) -> (r: ProofV1)
        requires
            prove_fib_pre(*air, self.cfg),
        ensures
            fib_proof_valid(r),
            r.version == 1,
            r.air_id@ == fib_id_bytes(),
            r.pub_input_enc@ == fib_public_bytes(air_public(*air)),
            r.n_rows == air.steps + 1,
            r.n_cols == 2,
            r.queries == self.cfg.queries,
            r.openings@.len() == self.cfg.queries,
            r.fri_commitment matches Option::Some(c) && c.oracle.len
                == spec_next_pow2((air.steps + 1) as nat) as int
                    * pow2(self.cfg.blowup_log2 as nat) as int,
            r.fri_queries matches Option::Some(qs) && qs@.len() == self.cfg.queries,
            r.fri_round_queries matches Option::Some(rqs)
                && rqs@.len() == self.cfg.queries,
            r.fri_rounds matches Option::Some(rs)
                && rs.rounds@.len() == self.cfg.num_rounds
                && forall|j: int| 0 <= j < rs.rounds@.len()
                    ==> (#[trigger] rs.rounds@[j]).len as int * pow2((j + 1) as nat) as int
                        == spec_next_pow2((air.steps + 1) as nat) as int
                            * pow2(self.cfg.blowup_log2 as nat) as int,
    {
        let n = air.steps + 1;
        let pub_inp = air.public_input();
        let pub_enc = encode_fib_public(&pub_inp);
        proof {
            lemma_fib_public_roundtrip(pub_inp);
            assert(pub_inp == air_public(*air));
        }
        let ghost a0v = air.a0.0 as int;
        let ghost a1v = air.a1.0 as int;
        // trace and row commitment
        let cols = air.gen_trace();
        let ghost c0 = cols@[0]@;
        let ghost c1 = cols@[1]@;
        let mut rows: Vec<Vec<u8>> = Vec::new();
        let mut leaves: Vec<Vec<u8>> = Vec::new();
        let mut i: usize = 0;
        while i < n
            invariant
                rows@.len() == i,
                leaves@.len() == i,
                i <= n,
                n == air.steps + 1,
                cols@.len() == 2,
                c0 == cols@[0]@,
                c1 == cols@[1]@,
                c0.len() == n,
                c1.len() == n,
                forall|q: int| 0 <= q < i ==> (#[trigger] rows@[q])@
                    == row_bytes_of(seq![c0[q], c1[q]]),
                forall|q: int| 0 <= q < i ==> views_of(leaves@)[q]
                    == row_leaf_of(rows@[q]@),
            decreases n - i,
        {
            let mut rowv: Vec<Fp> = Vec::new();
            rowv.push(cols[0][i]);
            rowv.push(cols[1][i]);
            let bytes = row_to_bytes(rowv.as_slice());
            proof {
                assert(rowv@ =~= seq![c0[i as int], c1[i as int]]);
            }
            let leaf = row_leaf(bytes.as_slice());
            let ghost prevl = leaves@;
            rows.push(bytes);
            leaves.push(leaf);
            i = i + 1;
            proof {
                assert forall|q: int| 0 <= q < i implies
                    views_of(leaves@)[q] == row_leaf_of(rows@[q]@) by {
                    if q < i - 1 {
                        assert(leaves@[q] == prevl[q]);
                        assert(views_of(prevl)[q] == row_leaf_of(rows@[q]@));
                    } else {
                        assert(leaves@[q]@ == row_leaf_of(rows@[q]@));
                    }
                }
            }
        }
        let mt = MerkleTree::build(&leaves);
        let root = mt.root();
        // Fiat-Shamir binding
        let idv = fib_air_id_bytes();
        let domain = dom_transcript_bytes();
        let mut tr = Transcript::new(domain.as_slice());
        let l_air = lab_air_id_bytes();
        tr.absorb(l_air.as_slice(), idv.as_slice());
        let l_pub = lab_pub_input_bytes();
        tr.absorb(l_pub.as_slice(), pub_enc.as_slice());
        let l_root = lab_root_bytes();
        tr.absorb(l_root.as_slice(), root.as_slice());
        let ghost st = fs_state_of(fib_id_bytes(), pub_enc@, root@);
        proof {
            assert(tr@ == st);
        }
        // domain sizes
        proof {
            lemma_spec_next_pow2(n as nat);
            vstd::arithmetic::power2::lemma_pow2_pos(self.cfg.blowup_log2 as nat);
            assert(spec_next_pow2(n as nat) * 1
                <= spec_next_pow2(n as nat) * pow2(self.cfg.blowup_log2 as nat))
                by (nonlinear_arith)
                requires
                    spec_next_pow2(n as nat) >= 0,
                    1 <= pow2(self.cfg.blowup_log2 as nat);
        }
        let base_pow2 = crate::poly::pow2_above(n);
        let ext_size = crate::poly::shl_pow2(base_pow2, self.cfg.blowup_log2);
        proof {
            assert(1 * pow2(self.cfg.blowup_log2 as nat)
                <= base_pow2 * pow2(self.cfg.blowup_log2 as nat)) by (nonlinear_arith)
                requires base_pow2 >= 1, pow2(self.cfg.blowup_log2 as nat) >= 0;
        }
        let ratio = crate::poly::shl_pow2(1, self.cfg.blowup_log2);
        proof {
            crate::poly::lemma_is_pow2_pow2(self.cfg.blowup_log2 as nat);
        }
        // zero-knowledge mask over the extended domain
        let mask_words = tr.challenge_words(2);
        let r0 = Fp::new(mask_words[0]);
        let r1 = Fp::new(mask_words[1]);
        let mut r_coeffs: Vec<Fp> = Vec::new();
        r_coeffs.push(r0);
        r_coeffs.push(r1);
        let r_eval = eval_poly_on_domain(&r_coeffs, ext_size);
        let z_base = vanishing_on_extended(ext_size, base_pow2);
        let mut mask: Vec<Fp> = Vec::new();
        let mut mi: usize = 0;
        while mi < ext_size
            invariant
                mask@.len() == mi,
                mi <= ext_size,
                r_eval@.len() == ext_size,
                z_base@.len() == ext_size,
                all_canonical(r_eval@),
                all_canonical(z_base@),
                all_canonical(mask@),
            decreases ext_size - mi,
        {
            mask.push(r_eval[mi].mul(z_base[mi]));
            mi = mi + 1;
        }
        // challenge-weighted combination of the column extensions
        let col0_ext = lde_from_evals(&cols[0], self.cfg.blowup_log2);
        let col1_ext = lde_from_evals(&cols[1], self.cfg.blowup_log2);
        let gamma0 = Fp::new(tr.challenge_u64());
        let gamma1 = Fp::new(tr.challenge_u64());
        let mut fri_values: Vec<Fp> = Vec::new();
        let mut fi: usize = 0;
        while fi < ext_size
            invariant
                fri_values@.len() == fi,
                fi <= ext_size,
                col0_ext@.len() == ext_size,
                col1_ext@.len() == ext_size,
                mask@.len() == ext_size,
                all_canonical(col0_ext@),
                all_canonical(col1_ext@),
                all_canonical(mask@),
                all_canonical(fri_values@),
                gamma0.canonical(),
                gamma1.canonical(),
            decreases ext_size - fi,
        {
            let v = gamma0.mul(col0_ext[fi]).add(gamma1.mul(col1_ext[fi])).add(mask[fi]);
            fri_values.push(v);
            fi = fi + 1;
        }
        let (fri_commitment, fri_mt) = FriProver::commit(&fri_values);
        proof {
            lemma_pow2_window_unique(fri_mt.leaf_count(), ext_size as nat, ext_size as nat);
            assert(fri_mt.leaf_count() == ext_size);
        }
        let ghost cg = fri_commitment;
        // folding rounds
        let ghost alpha_g = alpha_of(st);
        let num_rounds = self.cfg.num_rounds;
        let mut fri_rounds_v: Vec<FriRoundCommitment> = Vec::new();
        let mut round_data: Vec<(Vec<Fp>, MerkleTree)> = Vec::new();
        let mut current: Vec<Fp> = fri_values.clone();
        let mut round: u32 = 0;
        proof {
            vstd::arithmetic::power2::lemma2_to64();
            assert(current@.len() * pow2(0) == ext_size);
        }
        while round < num_rounds
            invariant
                round <= num_rounds,
                round_data@.len() == round,
                fri_rounds_v@.len() == round,
                tr@ == st,
                alpha_g == alpha_of(st),
                is_pow2(ext_size as nat),
                ext_size <= 0x1_0000_0000,
                4 * ext_size <= usize::MAX,
                pow2(num_rounds as nat) <= ext_size,
                all_canonical(current@),
                is_pow2(current@.len() as nat),
                current@.len() * pow2(round as nat) == ext_size,
                round == 0 ==> current@ == fri_values@,
                round >= 1 ==> current@ == round_data@[round - 1].0@,
                forall|j: int| 0 <= j < round ==> round_entry_ok(round_data@,
                    fri_rounds_v@, alpha_g, ext_size as int, j),
            decreases num_rounds - round,
        {
            proof {
                // the current oracle still has room to halve
                if current@.len() < 2 {
                    assert(current@.len() == 1);
                    assert(pow2(round as nat) == ext_size);
                    vstd::arithmetic::power2::lemma_pow2_strictly_increases(
                        round as nat, num_rounds as nat);
                }
                assert(current@.len() >= 2);
                assert(current@.len() % 2 == 0);
            }
            let ghost cur_old = current@;
            let ghost l_old = current@.len() as int;
            let alpha_r = Fp::new(tr.challenge_u64());
            proof {
                assert(alpha_r == alpha_g);
            }
            let folded = FriProver::fold_values(alpha_r, &current);
            proof {
                vstd::arithmetic::power2::lemma_pow2_pos(round as nat);
                assert(l_old * 1 <= l_old * pow2(round as nat)) by (nonlinear_arith)
                    requires l_old >= 0, 1 <= pow2(round as nat);
                assert(4 * folded@.len() <= usize::MAX);
                assert(is_pow2(folded@.len() as nat));
            }
            let (rc, rmt) = FriProver::commit_round(&folded);
            proof {
                lemma_pow2_window_unique(rmt.leaf_count(), folded@.len() as nat,
                    folded@.len() as nat);
                assert(rmt.leaf_count() == folded@.len());
            }
            current = folded.clone();
            let ghost prev_rd = round_data@;
            let ghost prev_rc = fri_rounds_v@;
            round_data.push((folded, rmt));
            fri_rounds_v.push(rc);
            round = round + 1;
            proof {
                vstd::arithmetic::power2::lemma_pow2_unfold(round as nat);
                assert(current@.len() as int * pow2(round as nat) as int
                    == ext_size as int)
                    by (nonlinear_arith)
                    requires
                        2 * current@.len() as int == l_old,
                        pow2(round as nat) as int == 2 * pow2((round - 1) as nat) as int,
                        l_old * pow2((round - 1) as nat) as int == ext_size as int;
                assert forall|j: int| 0 <= j < round implies round_entry_ok(round_data@,
                    fri_rounds_v@, alpha_g, ext_size as int, j) by {
                    if j < round - 1 {
                        assert(round_entry_ok(prev_rd, prev_rc, alpha_g,
                            ext_size as int, j));
                        assert(round_data@[j] == prev_rd[j]);
                        assert(fri_rounds_v@[j] == prev_rc[j]);
                        if j >= 1 {
                            assert(round_data@[j - 1] == prev_rd[j - 1]);
                        }
                    } else {
                        assert(round_data@[j].0@ == current@);
                        if j >= 1 {
                            assert(round_data@[j - 1] == prev_rd[j - 1]);
                            assert(prev_rd[j - 1].0@ == cur_old);
                        }
                    }
                }
            }
        }
        let fri_rounds_struct = FriMultiCommitment { rounds: fri_rounds_v };
        let ghost rsg = fri_rounds_struct;
        // query phase
        let qwords = tr.challenge_words(self.cfg.queries);
        let mut openings: Vec<Opening> = Vec::new();
        let mut fri_qs: Vec<FriQuery> = Vec::new();
        let mut fri_rqs: Vec<FriMultiQuery> = Vec::new();
        let ghost pubv = decoded_fib_public(pub_enc@);
        let mut k: usize = 0;
        while k < self.cfg.queries
            invariant
                k <= self.cfg.queries,
                openings@.len() == k,
                fri_qs@.len() == k,
                fri_rqs@.len() == k,
                qwords@.len() == self.cfg.queries,
                forall|q: int| 0 <= q < self.cfg.queries ==> qwords@[q] == qword(st, q),
                st == fs_state_of(fib_id_bytes(), pub_enc@, root@),
                alpha_g == alpha_of(st),
                n == air.steps + 1,
                n >= 1,
                c0.len() == n,
                c1.len() == n,
                all_canonical(c0),
                all_canonical(c1),
                forall|q: int| 0 <= q < n ==> (#[trigger] c0[q]).0 == fib_f(a0v, a1v, q as nat),
                forall|q: int| 0 <= q < n ==> (#[trigger] c1[q]).0
                    == fib_f(a0v, a1v, (q + 1) as nat),
                a0v == air.a0.0 && a1v == air.a1.0,
                air.a0.canonical() && air.a1.canonical(),
                pubv == decoded_fib_public(pub_enc@),
                pubv.a0 == a0v && pubv.a1 == a1v,
                pubv.expected_first == fib_f(a0v, a1v, (n - 1) as nat),
                rows@.len() == n,
                forall|q: int| 0 <= q < n ==> (#[trigger] rows@[q])@
                    == row_bytes_of(seq![c0[q], c1[q]]),
                mt.wf(),
                n <= mt.leaf_count(),
                forall|q: int| 0 <= q < n ==> mt.leaf_at(q) == row_leaf_of(
                    (#[trigger] rows@[q])@),
                root@ == mt.nodes_spec()[1],
                // FRI oracle facts
                cg.oracle.len == ext_size,
                cg.oracle.root@ == fri_mt.nodes_spec()[1],
                fri_mt.wf(),
                fri_mt.leaf_count() == ext_size,
                fri_values@.len() == ext_size,
                all_canonical(fri_values@),
                forall|q: int| 0 <= q < ext_size ==> fri_mt.leaf_at(q) == fri_leaf_of(
                    (#[trigger] fri_values@[q]).0),
                base_pow2 == spec_next_pow2(n as nat),
                n <= base_pow2,
                ratio == pow2(self.cfg.blowup_log2 as nat),
                is_pow2(ratio as nat),
                ext_size == base_pow2 * ratio,
                ext_size <= 0x1_0000_0000,
                ext_size >= 1,
                // round facts
                rsg.rounds@.len() == num_rounds,
                round_data@.len() == num_rounds,
                num_rounds == self.cfg.num_rounds,
                forall|j: int| 0 <= j < num_rounds ==> round_entry_ok(round_data@,
                    rsg.rounds@, alpha_g, ext_size as int, j),
                // accumulated per-query facts
                forall|q: int| 0 <= q < k ==> opening_ok(st, root@, n as int, pubv,
                    #[trigger] openings@[q], q),
                forall|q: int| 0 <= q < k ==> (#[trigger] fri_qs@[q]).oracle_proof.idx
                    == openings@[q].idx * ratio
                    && spec_verify_opening(cg, fri_qs@[q].oracle_proof),
                forall|q: int| 0 <= q < k ==> (#[trigger] fri_rqs@[q]).rounds@.len()
                    == num_rounds,
                forall|q: int, j: int| 0 <= q < k && 0 <= j < num_rounds
                    ==> #[trigger] round_ok(alpha_g, rsg, fri_rqs@[q], j),
            decreases self.cfg.queries - k,
        {
            let idx_w: u64 = qwords[k] % (n as u64);
            proof {
                assert(idx_w < n as u64);
            }
            let idx = idx_w as usize;
            // row opening (and next row when one exists)
            let path_row = mt.open(idx);
            let row_bytes_k = rows[idx].clone();
            let opening = if idx + 1 < n {
                let nb = rows[idx + 1].clone();
                let np = mt.open(idx + 1);
                Opening {
                    idx,
                    row: row_bytes_k,
                    next_row: Option::Some(nb),
                    path_row,
                    path_next: Option::Some(np),
                }
            } else {
                Opening {
                    idx,
                    row: row_bytes_k,
                    next_row: Option::None,
                    path_row,
                    path_next: Option::None,
                }
            };
            proof {
                lemma_opening_is_ok(st, root@, n as int, pubv, opening, k as int, mt,
                    rows@, c0, c1, a0v, a1v);
            }
            openings.push(opening);
            // FRI oracle opening at the mapped extended index
            proof {
                assert(idx * ratio < base_pow2 * ratio) by (nonlinear_arith)
                    requires idx < base_pow2, ratio >= 1, idx >= 0, base_pow2 >= 0;
            }
            let ext_idx = idx * ratio;
            let oracle_proof = FriProver::open(&fri_mt, ext_idx, fri_values[ext_idx]);
            proof {
                crate::merkle::lemma_merkle_open_verifies(fri_mt, ext_idx as nat);
            }
            fri_qs.push(FriQuery { oracle_proof });
            // pair openings per folding round
            let mut rounds_vec: Vec<FriRoundQuery> = Vec::new();
            let mut j: usize = 0;
            while j < num_rounds as usize
                invariant
                    rounds_vec@.len() == j,
                    j <= num_rounds,
                    round_data@.len() == num_rounds,
                    rsg.rounds@.len() == num_rounds,
                    alpha_g.canonical(),
                    ext_idx < ext_size,
                    ext_size >= 1,
                    forall|jj: int| 0 <= jj < num_rounds ==> round_entry_ok(round_data@,
                        rsg.rounds@, alpha_g, ext_size as int, jj),
                    forall|jj: int| 0 <= jj < j ==> honest_pair(round_data@[jj].0@,
                        round_data@[jj].1, ext_idx as int,
                        (#[trigger] rounds_vec@[jj]).pair),
                decreases num_rounds - j,
            {
                let entry = &round_data[j];
                proof {
                    assert(round_entry_ok(round_data@, rsg.rounds@, alpha_g,
                        ext_size as int, j as int));
                    assert(entry.0@.len() % 2 == 0 || entry.0@.len() == 1);
                }
                let pos = ext_idx % entry.0.len();
                let pair = FriProver::open_pair(&entry.0, &entry.1, pos);
                proof {
                    vstd::arithmetic::div_mod::lemma_mod_twice(ext_idx as int,
                        entry.0@.len() as int);
                    assert(honest_pair(entry.0@, entry.1, ext_idx as int, pair));
                }
                rounds_vec.push(FriRoundQuery { pair });
                j = j + 1;
            }
            let mq = FriMultiQuery { rounds: rounds_vec };
            proof {
                assert forall|jj: int| 0 <= jj < num_rounds implies
                    round_ok(alpha_g, rsg, mq, jj) by {
                    assert(round_entry_ok(round_data@, rsg.rounds@, alpha_g,
                        ext_size as int, jj));
                    lemma_honest_pair_verifies(round_data@[jj].0@, round_data@[jj].1,
                        ext_idx as int, mq.rounds@[jj].pair, rsg.rounds@[jj].root@,
                        rsg.rounds@[jj].len as nat);
                    if jj + 1 < num_rounds {
                        assert(round_entry_ok(round_data@, rsg.rounds@, alpha_g,
                            ext_size as int, jj + 1));
                        vstd::arithmetic::power2::lemma_pow2_pos((jj + 1) as nat);
                        lemma_honest_chain(round_data@[jj].0@, round_data@[jj].1,
                            round_data@[jj + 1].0@, round_data@[jj + 1].1,
                            ext_idx as int, mq.rounds@[jj].pair,
                            mq.rounds@[jj + 1].pair, alpha_g);
                    }
                }
            }
            fri_rqs.push(mq);
            k = k + 1;
        }
        // proof digest
        let mut parts: Vec<Vec<u8>> = Vec::new();
        parts.push(root.clone());
        parts.push(pub_enc.clone());
        parts.push(u64_to_le_bytes(self.cfg.queries as u64));
        let dlabel = dom_proof_digest_bytes();
        let proof_digest = h_many(dlabel.as_slice(), &parts);
        proof {
            assert(views_of(parts@) =~= seq![root@, pub_enc@,
                spec_u64_to_le_bytes(self.cfg.queries as u64)]);
        }
        let result = ProofV1 {
            version: 1,
            air_id: idv,
            pub_input_enc: pub_enc,
            merkle_root: root,
            n_rows: n,
            n_cols: 2,
            queries: self.cfg.queries,
            openings,
            fri_commitment: Option::Some(fri_commitment),
            fri_queries: Option::Some(fri_qs),
            fri_rounds: Option::Some(fri_rounds_struct),
            fri_round_queries: Option::Some(fri_rqs),
            proof_digest,
        };
        proof {
            let p = result;
            assert(p.n_rows as int <= 0x1_0000_0000) by (nonlinear_arith)
                requires
                    p.n_rows <= base_pow2,
                    ratio >= 1,
                    base_pow2 >= 0,
                    base_pow2 * ratio <= 0x1_0000_0000;
            let stp = fs_state_of(p.air_id@, p.pub_input_enc@, p.merkle_root@);
            assert(stp == st);
            assert forall|j: int| 0 <= j < rsg.rounds@.len() implies
                (#[trigger] rsg.rounds@[j]).len as int * pow2((j + 1) as nat) as int
                    == ext_size as int by {
                assert(round_entry_ok(round_data@, rsg.rounds@, alpha_g,
                    ext_size as int, j));
            }
            assert forall|q: int| 0 <= q < p.queries implies query_ok(p, q) by {
                assert(opening_ok(st, p.merkle_root@, p.n_rows as int,
                    decoded_fib_public(p.pub_input_enc@), p.openings@[q], q));
                assert(cg.oracle.len as int % spec_next_pow2(p.n_rows as nat) as int == 0
                    && cg.oracle.len as int / spec_next_pow2(p.n_rows as nat) as int
                        == ratio) by {
                    assert(cg.oracle.len as int == ratio as int * base_pow2 as int + 0)
                        by (nonlinear_arith)
                        requires cg.oracle.len as int == base_pow2 as int * ratio as int;
                    vstd::arithmetic::div_mod::lemma_fundamental_div_mod_converse(
                        cg.oracle.len as int, base_pow2 as int, ratio as int, 0);
                }
                assert(fri_query_ok(cg, p.fri_queries.unwrap()@, p.n_rows as int,
                    p.openings@[q].idx as int, p.queries as int, q));
                assert(rounds_ok(alpha_of(st), rsg, p.fri_round_queries.unwrap()@,
                    p.queries as int, q)) by {
                    if rsg.rounds@.len() > 1 {
                        lemma_round_lens_shrink(round_data@, rsg.rounds@, alpha_g,
                            ext_size as int);
                    }
                }
            }
        }
        result
    }
}

/// Deep folding shrinks the oracle: with more than one round whose lengths
/// halve from a common starting size — exactly what `prove_fib` ensures of
/// its rounds — the last round is strictly shorter than the first.
pub proof fn lemma_rounds_shrink(rs: FriMultiCommitment, ext: int)
    requires
        rs.rounds@.len() > 1,
        ext >= 1,
        forall|j: int| 0 <= j < rs.rounds@.len()
            ==> (#[trigger] rs.rounds@[j]).len as int * pow2((j + 1) as nat) as int == ext,
    ensures
        rs.rounds@.last().len < rs.rounds@.first().len,
{
    let last = rs.rounds@.len() - 1;
    assert(rs.rounds@[0].len as int * pow2(1) as int == ext);
    assert(rs.rounds@[last].len as int * pow2((last + 1) as nat) as int == ext);
    vstd::arithmetic::power2::lemma2_to64();
    vstd::arithmetic::power2::lemma_pow2_strictly_increases(1, (last + 1) as nat);
    let lf = rs.rounds@.first().len as int;
    let ll = rs.rounds@.last().len as int;
    let p = pow2((last + 1) as nat) as int;
    assert(ll < lf) by (nonlinear_arith)
        requires
            ll * p == ext,
            lf * 2 == ext,
            2 < p,
            ext >= 1,
            ll >= 0,
            lf >= 0;
}

/// When there is more than one folding round, the last round's oracle is
/// strictly shorter than the first round's.
proof fn lemma_round_lens_shrink(rd: Seq<(Vec<Fp>, MerkleTree)>,
    rc: Seq<FriRoundCommitment>, alpha: Fp, ext: int)
    requires
        rd.len() == rc.len(),
        rc.len() > 1,
        forall|j: int| 0 <= j < rd.len() ==> round_entry_ok(rd, rc, alpha, ext, j),
    ensures
        rc.last().len < rc.first().len,
{
    let last = rd.len() - 1;
    assert(round_entry_ok(rd, rc, alpha, ext, 0));
    assert(round_entry_ok(rd, rc, alpha, ext, last));
    assert(2 * rd[last].0@.len() == rd[last - 1].0@.len());
    assert(round_entry_ok(rd, rc, alpha, ext, last - 1));
    let l_last = rd[last].0@.len() as int;
    let l_first = rd[0].0@.len() as int;
    vstd::arithmetic::power2::lemma2_to64();
    vstd::arithmetic::power2::lemma_pow2_strictly_increases(1, (last + 1) as nat);
    assert(l_last * pow2((last + 1) as nat) == ext);
    assert(l_first * pow2(1) == ext);
    assert(l_last < l_first) by (nonlinear_arith)
        requires
            l_last * pow2((last + 1) as nat) == ext,
            l_first * pow2(1) as int == ext,
            pow2(1) < pow2((last + 1) as nat),
            l_last >= 1,
            l_first >= 1;
}

/// The opening the prover builds for query `k` passes `opening_ok`: the
/// sampled index matches, both rows verify under the root, and the decoded
/// rows satisfy the Fibonacci row predicate.
proof fn lemma_opening_is_ok(st: Seq<u8>, root: Seq<u8>, n: int, pubv: FibPublic,
    o: Opening, k: int, mt: MerkleTree, rows: Seq<Vec<u8>>, c0: Seq<Fp>, c1: Seq<Fp>,
    a0v: int, a1v: int)
    requires
        0 <= o.idx < n,
        o.idx == qword(st, k) as int % n,
        rows.len() == n,
        c0.len() == n,
        c1.len() == n,
        all_canonical(c0),
        all_canonical(c1),
        forall|q: int| 0 <= q < n ==> (#[trigger] c0[q]).0 == fib_f(a0v, a1v, q as nat),
        forall|q: int| 0 <= q < n ==> (#[trigger] c1[q]).0
            == fib_f(a0v, a1v, (q + 1) as nat),
        forall|q: int| 0 <= q < n ==> (#[trigger] rows[q])@
            == row_bytes_of(seq![c0[q], c1[q]]),
        mt.wf(),
        n <= mt.leaf_count(),
        forall|q: int| 0 <= q < n ==> mt.leaf_at(q) == row_leaf_of((#[trigger] rows[q])@),
        root == mt.nodes_spec()[1],
        pubv.a0 == a0v,
        pubv.a1 == a1v,
        pubv.expected_first == fib_f(a0v, a1v, (n - 1) as nat),
        o.row@ == rows[o.idx as int]@,
        views_of(o.path_row@) == spec_open(mt.nodes_spec(), mt.leaf_count() + o.idx as nat),
        o.idx + 1 < n ==> (o.next_row matches Option::Some(nb) && nb@
            == rows[o.idx + 1]@)
            && (o.path_next matches Option::Some(np) && views_of(np@)
                == spec_open(mt.nodes_spec(), mt.leaf_count() + (o.idx + 1) as nat)),
        o.idx + 1 >= n ==> o.next_row is None && o.path_next is None,
    ensures
        opening_ok(st, root, n, pubv, o, k),
{
    let idx = o.idx as int;
    let rowseq = seq![c0[idx], c1[idx]];
    lemma_row_bytes_len(rowseq);
    lemma_row_bytes_roundtrip(rowseq, 0);
    lemma_row_bytes_roundtrip(rowseq, 1);
    crate::merkle::lemma_merkle_open_verifies(mt, o.idx as nat);
    assert(decoded_row(o.row@)[0].0 == c0[idx].0);
    assert(decoded_row(o.row@)[1].0 == c1[idx].0);
    if o.idx + 1 < n {
        let nseq = seq![c0[idx + 1], c1[idx + 1]];
        lemma_row_bytes_len(nseq);
        lemma_row_bytes_roundtrip(nseq, 0);
        lemma_row_bytes_roundtrip(nseq, 1);
        crate::merkle::lemma_merkle_open_verifies(mt, (o.idx + 1) as nat);
        let nb = o.next_row.unwrap();
        assert(decoded_row(nb@)[0].0 == c0[idx + 1].0);
        assert(decoded_row(nb@)[1].0 == c1[idx + 1].0);
        // the trace steps by the Fibonacci rule
        assert(c0[idx + 1].0 == c1[idx].0);
        assert(fib_f(a0v, a1v, (idx + 2) as nat)
            == (fib_f(a0v, a1v, idx as nat) + fib_f(a0v, a1v, (idx + 1) as nat))
                % MODULUS as int);
        assert(c1[idx + 1].0 == (c0[idx].0 + c1[idx].0) % MODULUS as int);
        assert(spec_check_row(o.idx as nat, decoded_row(o.row@),
            Option::Some(decoded_row(nb@)), pubv));
    } else {
        assert(idx == n - 1);
        assert(decoded_row(o.row@)[0].0 == fib_f(a0v, a1v, (n - 1) as nat));
        assert(spec_check_row(o.idx as nat, decoded_row(o.row@), Option::None, pubv));
    }
}

/// The hash-chain accumulator for aggregating proof digests: with no
/// previous digest the current one is absorbed alone, else both in order.
pub fn accumulate(prev: Option<&[u8]>, cur: &[u8]) -> (r: Vec<u8>)
    ensures
        r@ == match prev {
            Option::Some(p) => xof_of(dom_accumulator() + h_many_tail(seq![p@, cur@]),
                DIGEST_LEN as nat),
            Option::None => xof_of(dom_accumulator() + h_many_tail(seq![cur@]),
                DIGEST_LEN as nat),
        },
        r@.len() == DIGEST_LEN,
{
    let label = dom_accumulator_bytes();
    let mut parts: Vec<Vec<u8>> = Vec::new();
    match prev {
        Option::Some(p) => {
            parts.push(vstd::slice::slice_to_vec(p));
            parts.push(vstd::slice::slice_to_vec(cur));
            let r = h_many(label.as_slice(), &parts);
            proof {
                assert(views_of(parts@) =~= seq![p@, cur@]);
            }
            r
        },
        Option::None => {
            parts.push(vstd::slice::slice_to_vec(cur));
            let r = h_many(label.as_slice(), &parts);
            proof {
                assert(views_of(parts@) =~= seq![cur@]);
            }
            r
        },
    }
}

/// The accumulator digest used by the recursion pipeline.
pub fn accumulator_digest(prev: Option<&[u8]>, cur: &[u8]) -> (r: Vec<u8>)
    ensures
        r@ == match prev {
            Option::Some(p) => xof_of(dom_accumulator() + h_many_tail(seq![p@, cur@]),
                DIGEST_LEN as nat),
            Option::None => xof_of(dom_accumulator() + h_many_tail(seq![cur@]),
                DIGEST_LEN as nat),
        },
{
    accumulate(prev, cur)
}

/// Split a 48-byte digest into six little-endian 64-bit field limbs.
pub fn digest_to_fps(digest: &[u8]) -> (r: Option<Vec<Fp>>)
    ensures
        r is Some <==> digest@.len() == DIGEST_LEN,
        match r {
            Option::Some(v) => {
                &&& v@.len() == 6
                &&& forall|i: int| 0 <= i < 6 ==> (#[trigger] v@[i]).0
                    == row_elem_of(digest@, i)
                &&& all_canonical(v@)
            },
            Option::None => true,
        },
{
    if digest.len() != DIGEST_LEN {
        return None;
    }
    bytes_to_fps(digest)
}

/// Concatenate six field limbs back into a 48-byte digest.
pub fn fps_to_digest(limbs: &[Fp]) -> (r: Vec<u8>)
    ensures
        r@ == row_bytes_of(limbs@),
{
    row_to_bytes(limbs)
}

/// Merkle inclusion verification in a gadget-friendly signature.
pub fn merkle_verify_root(root: &[u8], idx: usize, leaf: &[u8], path: &[Vec<u8>])
    -> (r: bool)
    ensures
        r == (merkle_fold(leaf@, idx as nat, views_of(path@)) == root@),
{
    MerkleTree::verify(root, idx, leaf, path)
}

/// FRI pair inclusion verification in a gadget-friendly signature.
pub fn fri_verify_pair(root: &[u8], len: usize, pair: &PairOpening) -> (r: bool)
    ensures
        r == spec_verify_pair(root@, len as nat, *pair),
{
    FriVerifier::verify_pair(root, len, pair)
}

} // verus!
