//! The hash layer: a SHAKE256 extendable-output function, the domain-labelled
//! helpers `h2` and `h_many`, the Fiat-Shamir transcript, and the
//! deterministic challenge-seeded word stream.
//!
//! All hashing goes through one trusted wrapper around SHAKE256; every other
//! function here is verified byte assembly on top of it.

use vstd::prelude::*;
use sha3::digest::{ExtendableOutput, Update, XofReader};
use rand::{RngCore, SeedableRng};

verus! {

/// Length in bytes of every digest in this crate: SHAKE256 truncated to 384 bits.
pub const DIGEST_LEN: usize = 48;

/// Byte `i` of the SHAKE256 output stream of `data`. The stream is a pure
/// function of the input bytes, so it is named rather than written out.
pub uninterp spec fn xof_stream(data: Seq<u8>, i: nat) -> u8;

/// The SHAKE256 output of `data`, truncated to `n` bytes: the first `n`
/// bytes of one infinite stream, so a shorter read is always a prefix of a
/// longer one.
#[verifier::opaque]
pub open spec fn xof_of(data: Seq<u8>, n: nat) -> Seq<u8> {
    Seq::new(n, |i: int| xof_stream(data, i as nat))
}

/// Reading fewer bytes of the same stream yields a prefix of a longer read.
pub proof fn lemma_xof_prefix(data: Seq<u8>, m: nat, n: nat)
    requires
        m <= n,
    ensures
        xof_of(data, m) == xof_of(data, n).subrange(0, m as int),
        xof_of(data, n).len() == n,
{
    reveal(xof_of);
    assert(xof_of(data, m) =~= xof_of(data, n).subrange(0, m as int));
}

/// Relies on sha3's Shake256: absorb `data`, squeeze `n` bytes. The output
/// depends on the input bytes and requested length alone, and squeezing is
/// reading from one stream: each output byte is a function of the input and
/// its position.
#[verifier::external_body]
fn shake256_xof(data: &[u8], n: usize) -> (r: Vec<u8>)
    ensures
        r@ == xof_of(data@, n as nat),
        forall|i: int| 0 <= i < n ==> r@[i] == xof_stream(data@, i as nat),
        r@.len() == n,
{
    let mut hasher = sha3::Shake256::default();
    hasher.update(data);
    let mut xof = hasher.finalize_xof();
    let mut out = vec![0u8; n];
    xof.read(&mut out);
    out
}

/// The byte sequences held by a sequence of byte vectors.
pub open spec fn views_of(s: Seq<Vec<u8>>) -> Seq<Seq<u8>> {
    Seq::new(s.len(), |i: int| s[i]@)
}

/// The word stream of a pseudorandom generator seeded with `seed`. rand's
/// `StdRng` is deterministic, so the stream is a function of the seed alone.
pub uninterp spec fn rng_word_of(seed: Seq<u8>, i: nat) -> u64;

/// Relies on rand's `StdRng::from_seed` and `next_u64`: a deterministic
/// pseudorandom generator, whose word stream is a function of the 32-byte
/// seed alone. Returns the first `n` words of that stream.
#[verifier::external_body]
fn std_rng_words(seed: &[u8], n: usize) -> (r: Vec<u64>)
    requires
        seed@.len() == 32,
    ensures
        r@.len() == n,
        forall|i: int| 0 <= i < n ==> r@[i] == rng_word_of(seed@, i as nat),
{
    let mut s = [0u8; 32];
    s.copy_from_slice(seed);
    let mut rng = rand::rngs::StdRng::from_seed(s);
    let mut out = Vec::with_capacity(n);
    for _ in 0..n {
        out.push(rng.next_u64());
    }
    out
}

/// Absorb `data` and squeeze 48 bytes.
pub fn shake256_384(data: &[u8]) -> (r: Vec<u8>)
    ensures
        r@ == xof_of(data@, DIGEST_LEN as nat),
        r@.len() == DIGEST_LEN,
{
    shake256_xof(data, DIGEST_LEN)
}

/// What `h2` hashes: `label || 0x00 || a || 0x01 || b`.
pub open spec fn h2_input(label: Seq<u8>, a: Seq<u8>, b: Seq<u8>) -> Seq<u8> {
    label + seq![0u8] + a + seq![1u8] + b
}

/// The two-child domain-separated hash: 48 bytes of
/// SHAKE256(label || 0x00 || a || 0x01 || b).
pub fn h2(label: &[u8], a: &[u8], b: &[u8]) -> (r: Vec<u8>)
    ensures
        r@ == xof_of(h2_input(label@, a@, b@), DIGEST_LEN as nat),
        r@.len() == DIGEST_LEN,
{
    let mut buf: Vec<u8> = Vec::new();
    buf.extend_from_slice(label);
    buf.push(0u8);
    buf.extend_from_slice(a);
    buf.push(1u8);
    buf.extend_from_slice(b);
    proof {
        assert(buf@ =~= h2_input(label@, a@, b@));
    }
    shake256_xof(buf.as_slice(), DIGEST_LEN)
}

/// What `h_many` hashes after the label: each part prefixed by its index byte.
pub open spec fn h_many_tail(parts: Seq<Seq<u8>>) -> Seq<u8>
    decreases parts.len(),
{
    if parts.len() == 0 {
        Seq::empty()
    } else {
        h_many_tail(parts.drop_last()) + seq![(parts.len() - 1) as u8] + parts.last()
    }
}

/// The indexed multi-part hash: 48 bytes of
/// SHAKE256(label || 0x00 || p_0 || 0x01 || p_1 || ...). The index of each
/// part is a single byte, so at most 255 parts are accepted.
pub fn h_many(label: &[u8], parts: &Vec<Vec<u8>>) -> (r: Vec<u8>)
    requires
        parts@.len() <= 255,
    ensures
        r@ == xof_of(label@ + h_many_tail(views_of(parts@)), DIGEST_LEN as nat),
        r@.len() == DIGEST_LEN,
{
    let mut buf: Vec<u8> = Vec::new();
    buf.extend_from_slice(label);
    proof {
        assert(views_of(parts@).take(0) =~= Seq::<Seq<u8>>::empty());
        assert(buf@ =~= label@ + h_many_tail(views_of(parts@).take(0)));
    }
    let mut i: usize = 0;
    while i < parts.len()
        invariant
            i <= parts@.len(),
            parts@.len() <= 255,
            buf@ == label@ + h_many_tail(views_of(parts@).take(i as int)),
        decreases parts@.len() - i,
    {
        buf.push(i as u8);
        buf.extend_from_slice(parts[i].as_slice());
        i = i + 1;
        proof {
            let pv = views_of(parts@);
            assert(pv.take(i as int).drop_last() =~= pv.take(i - 1));
            assert(pv.take(i as int).last() =~= pv[i - 1]);
            assert(buf@ =~= label@ + h_many_tail(pv.take(i as int)));
        }
    }
    proof {
        assert(views_of(parts@).take(parts@.len() as int) =~= views_of(parts@));
    }
    shake256_xof(buf.as_slice(), DIGEST_LEN)
}

/// The bytes of the domain label "row".
pub open spec fn dom_row() -> Seq<u8> {
    seq![114u8, 111u8, 119u8]
}

/// The bytes of the domain label "merkle.node".
pub open spec fn dom_merkle_node() -> Seq<u8> {
    seq![109u8, 101u8, 114u8, 107u8, 108u8, 101u8, 46u8, 110u8, 111u8, 100u8, 101u8]
}

/// The bytes of the domain label "fri.leaf".
pub open spec fn dom_fri_leaf() -> Seq<u8> {
    seq![102u8, 114u8, 105u8, 46u8, 108u8, 101u8, 97u8, 102u8]
}

/// The bytes of the domain label "proof.digest".
pub open spec fn dom_proof_digest() -> Seq<u8> {
    seq![112u8, 114u8, 111u8, 111u8, 102u8, 46u8, 100u8, 105u8, 103u8, 101u8, 115u8, 116u8]
}

/// The bytes of the domain label "accumulator".
pub open spec fn dom_accumulator() -> Seq<u8> {
    seq![97u8, 99u8, 99u8, 117u8, 109u8, 117u8, 108u8, 97u8, 116u8, 111u8, 114u8]
}

/// The bytes of the domain label "note.cm".
pub open spec fn dom_note_cm() -> Seq<u8> {
    seq![110u8, 111u8, 116u8, 101u8, 46u8, 99u8, 109u8]
}

/// The bytes of the domain label "note.nf".
pub open spec fn dom_note_nf() -> Seq<u8> {
    seq![110u8, 111u8, 116u8, 101u8, 46u8, 110u8, 102u8]
}

/// The bytes of the transcript domain string "numiproof.fs".
pub open spec fn dom_transcript() -> Seq<u8> {
    seq![110u8, 117u8, 109u8, 105u8, 112u8, 114u8, 111u8, 111u8, 102u8, 46u8, 102u8, 115u8]
}

/// The bytes of the transcript label "air_id".
pub open spec fn lab_air_id() -> Seq<u8> {
    seq![97u8, 105u8, 114u8, 95u8, 105u8, 100u8]
}

/// The bytes of the transcript label "pub_input".
pub open spec fn lab_pub_input() -> Seq<u8> {
    seq![112u8, 117u8, 98u8, 95u8, 105u8, 110u8, 112u8, 117u8, 116u8]
}

/// The bytes of the transcript label "root".
pub open spec fn lab_root() -> Seq<u8> {
    seq![114u8, 111u8, 111u8, 116u8]
}

/// The label "row" as bytes.
pub fn dom_row_bytes() -> (r: Vec<u8>)
    ensures
        r@ == dom_row(),
{
    let mut v: Vec<u8> = Vec::new();
    v.push(114u8);
    v.push(111u8);
    v.push(119u8);
    proof {
        assert(v@ =~= dom_row());
    }
    v
}

/// The label "merkle.node" as bytes.
pub fn dom_merkle_node_bytes() -> (r: Vec<u8>)
    ensures
        r@ == dom_merkle_node(),
{
    let mut v: Vec<u8> = Vec::new();
    v.push(109u8);
    v.push(101u8);
    v.push(114u8);
    v.push(107u8);
    v.push(108u8);
    v.push(101u8);
    v.push(46u8);
    v.push(110u8);
    v.push(111u8);
    v.push(100u8);
    v.push(101u8);
    proof {
        assert(v@ =~= dom_merkle_node());
    }
    v
}

/// The label "fri.leaf" as bytes.
pub fn dom_fri_leaf_bytes() -> (r: Vec<u8>)
    ensures
        r@ == dom_fri_leaf(),
{
    let mut v: Vec<u8> = Vec::new();
    v.push(102u8);
    v.push(114u8);
    v.push(105u8);
    v.push(46u8);
    v.push(108u8);
    v.push(101u8);
    v.push(97u8);
    v.push(102u8);
    proof {
        assert(v@ =~= dom_fri_leaf());
    }
    v
}

/// The label "proof.digest" as bytes.
pub fn dom_proof_digest_bytes() -> (r: Vec<u8>)
    ensures
        r@ == dom_proof_digest(),
{
    let mut v: Vec<u8> = Vec::new();
    v.push(112u8);
    v.push(114u8);
    v.push(111u8);
    v.push(111u8);
    v.push(102u8);
    v.push(46u8);
    v.push(100u8);
    v.push(105u8);
    v.push(103u8);
    v.push(101u8);
    v.push(115u8);
    v.push(116u8);
    proof {
        assert(v@ =~= dom_proof_digest());
    }
    v
}

/// The label "accumulator" as bytes.
pub fn dom_accumulator_bytes() -> (r: Vec<u8>)
    ensures
        r@ == dom_accumulator(),
{
    let mut v: Vec<u8> = Vec::new();
    v.push(97u8);
    v.push(99u8);
    v.push(99u8);
    v.push(117u8);
    v.push(109u8);
    v.push(117u8);
    v.push(108u8);
    v.push(97u8);
    v.push(116u8);
    v.push(111u8);
    v.push(114u8);
    proof {
        assert(v@ =~= dom_accumulator());
    }
    v
}

/// The label "note.cm" as bytes.
pub fn dom_note_cm_bytes() -> (r: Vec<u8>)
    ensures
        r@ == dom_note_cm(),
{
    let mut v: Vec<u8> = Vec::new();
    v.push(110u8);
    v.push(111u8);
    v.push(116u8);
    v.push(101u8);
    v.push(46u8);
    v.push(99u8);
    v.push(109u8);
    proof {
        assert(v@ =~= dom_note_cm());
    }
    v
}

/// The label "note.nf" as bytes.
pub fn dom_note_nf_bytes() -> (r: Vec<u8>)
    ensures
        r@ == dom_note_nf(),
{
    let mut v: Vec<u8> = Vec::new();
    v.push(110u8);
    v.push(111u8);
    v.push(116u8);
    v.push(101u8);
    v.push(46u8);
    v.push(110u8);
    v.push(102u8);
    proof {
        assert(v@ =~= dom_note_nf());
    }
    v
}

/// The transcript domain string "numiproof.fs" as bytes.
pub fn dom_transcript_bytes() -> (r: Vec<u8>)
    ensures
        r@ == dom_transcript(),
{
    let mut v: Vec<u8> = Vec::new();
    v.push(110u8);
    v.push(117u8);
    v.push(109u8);
    v.push(105u8);
    v.push(112u8);
    v.push(114u8);
    v.push(111u8);
    v.push(111u8);
    v.push(102u8);
    v.push(46u8);
    v.push(102u8);
    v.push(115u8);
    proof {
        assert(v@ =~= dom_transcript());
    }
    v
}

/// The transcript label "air_id" as bytes.
pub fn lab_air_id_bytes() -> (r: Vec<u8>)
    ensures
        r@ == lab_air_id(),
{
    let mut v: Vec<u8> = Vec::new();
    v.push(97u8);
    v.push(105u8);
    v.push(114u8);
    v.push(95u8);
    v.push(105u8);
    v.push(100u8);
    proof {
        assert(v@ =~= lab_air_id());
    }
    v
}

/// The transcript label "pub_input" as bytes.
pub fn lab_pub_input_bytes() -> (r: Vec<u8>)
    ensures
        r@ == lab_pub_input(),
{
    let mut v: Vec<u8> = Vec::new();
    v.push(112u8);
    v.push(117u8);
    v.push(98u8);
    v.push(95u8);
    v.push(105u8);
    v.push(110u8);
    v.push(112u8);
    v.push(117u8);
    v.push(116u8);
    proof {
        assert(v@ =~= lab_pub_input());
    }
    v
}

/// The transcript label "root" as bytes.
pub fn lab_root_bytes() -> (r: Vec<u8>)
    ensures
        r@ == lab_root(),
{
    let mut v: Vec<u8> = Vec::new();
    v.push(114u8);
    v.push(111u8);
    v.push(111u8);
    v.push(116u8);
    proof {
        assert(v@ =~= lab_root());
    }
    v
}

/// The indexed encoding of a single part.
pub proof fn lemma_h_many_tail1(a: Seq<u8>)
    ensures
        h_many_tail(seq![a]) == seq![0u8] + a,
{
    assert(seq![a].drop_last() =~= Seq::<Seq<u8>>::empty());
    assert(seq![a].last() == a);
    assert(h_many_tail(Seq::<Seq<u8>>::empty()) == Seq::<u8>::empty());
    assert(h_many_tail(seq![a]) =~= seq![0u8] + a);
}

/// The indexed encoding of two parts.
pub proof fn lemma_h_many_tail2(a: Seq<u8>, b: Seq<u8>)
    ensures
        h_many_tail(seq![a, b]) == seq![0u8] + a + seq![1u8] + b,
{
    lemma_h_many_tail1(a);
    assert(seq![a, b].drop_last() =~= seq![a]);
    assert(seq![a, b].last() == b);
    assert(h_many_tail(seq![a, b]) =~= seq![0u8] + a + seq![1u8] + b);
}

/// The indexed encoding of three parts.
pub proof fn lemma_h_many_tail3(a: Seq<u8>, b: Seq<u8>, c: Seq<u8>)
    ensures
        h_many_tail(seq![a, b, c]) == seq![0u8] + a + seq![1u8] + b + seq![2u8] + c,
{
    lemma_h_many_tail2(a, b);
    assert(seq![a, b, c].drop_last() =~= seq![a, b]);
    assert(seq![a, b, c].last() == c);
    assert(h_many_tail(seq![a, b, c]) =~= seq![0u8] + a + seq![1u8] + b + seq![2u8] + c);
}

/// The rolling Fiat-Shamir transcript. The view is the current 48-byte
/// (or seed-domain) state; every challenge is a pure function of it.
pub struct Transcript {
    state: Vec<u8>,
}

impl View for Transcript {
    type V = Seq<u8>;

    closed spec fn view(&self) -> Seq<u8> {
        self.state@
    }
}

/// What one absorb step hashes: `state || 0xFF || label || 0x00 || data`.
pub open spec fn absorb_input(state: Seq<u8>, label: Seq<u8>, data: Seq<u8>) -> Seq<u8> {
    state + seq![0xffu8] + label + seq![0u8] + data
}

impl Transcript {
    /// Seed the transcript state with the bytes of a domain string.
    pub fn new(domain: &[u8]) -> (r: Self)
        ensures
            r@ == domain@,
    {
        Transcript { state: vstd::slice::slice_to_vec(domain) }
    }

    /// Replace the state with SHAKE256-384(state || 0xFF || label || 0x00 || data).
    pub fn absorb(&mut self, label: &[u8], data: &[u8])
        ensures
            final(self)@ == xof_of(absorb_input(old(self)@, label@, data@), DIGEST_LEN as nat),
            final(self)@.len() == DIGEST_LEN,
    {
        let mut buf: Vec<u8> = Vec::new();
        buf.extend_from_slice(self.state.as_slice());
        buf.push(0xffu8);
        buf.extend_from_slice(label);
        buf.push(0u8);
        buf.extend_from_slice(data);
        proof {
            assert(buf@ =~= absorb_input(self@, label@, data@));
        }
        self.state = shake256_xof(buf.as_slice(), DIGEST_LEN);
    }

    /// Squeeze `out_len` bytes from the current state; the state is not
    /// changed, and a shorter read is a prefix of a longer one
    /// (`lemma_challenge_prefix`).
    pub fn challenge_bytes(&self, out_len: usize) -> (r: Vec<u8>)
        ensures
            r@ == xof_of(self@, out_len as nat),
            r@.len() == out_len,
    {
        shake256_xof(self.state.as_slice(), out_len)
    }

    /// The first 8 challenge bytes, read as a little-endian word.
    pub fn challenge_u64(&self) -> (r: u64)
        ensures
            r == vstd::bytes::spec_u64_from_le_bytes(xof_of(self@, 8)),
    {
        let b = self.challenge_bytes(8);
        vstd::bytes::u64_from_le_bytes(b.as_slice())
    }

    /// The first `n` words of the deterministic generator seeded with 32
    /// challenge bytes of the current state.
    pub fn challenge_words(&self, n: usize) -> (r: Vec<u64>)
        ensures
            r@.len() == n,
            forall|i: int| 0 <= i < n ==> r@[i] == rng_word_of(xof_of(self@, 32), i as nat),
    {
        let seed = self.challenge_bytes(32);
        std_rng_words(seed.as_slice(), n)
    }
}

/// Challenge reads of one transcript state are consistent: the `m` bytes of
/// a shorter read are exactly the first `m` bytes of a longer read.
pub proof fn lemma_challenge_prefix(t: Transcript, m: nat, n: nat)
    requires
        m <= n,
    ensures
        xof_of(t@, m) == xof_of(t@, n).subrange(0, m as int),
{
    lemma_xof_prefix(t@, m, n);
}

/// Challenges are a pure function of the absorb history: two transcripts
/// whose histories agree hold equal states (by the contract of `absorb`),
/// and equal states emit byte-identical challenges of every length.
pub proof fn lemma_transcript_deterministic(t1: Transcript, t2: Transcript, k: nat)
    requires
        t1@ == t2@,
    ensures
        xof_of(t1@, k) == xof_of(t2@, k),
{
}

} // verus!
