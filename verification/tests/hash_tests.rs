use numiproof::hash::{shake256_384, h2, h_many, Transcript, DIGEST_LEN};

#[test]
fn shake256_384_length_and_differs() {
    let a = shake256_384(b"hello");
    let b = shake256_384(b"world");
    assert_eq!(a.len(), DIGEST_LEN);
    assert_eq!(b.len(), DIGEST_LEN);
    assert_ne!(a.to_vec(), b.to_vec());
}

#[test]
fn h2_and_hmany_domain_separation() {
    let x = h2(b"domain", b"a", b"b");
    let y = h2(b"domain2", b"a", b"b");
    assert_ne!(x.to_vec(), y.to_vec());
    let m1 = h_many(b"domain", &vec![b"a".to_vec(), b"b".to_vec()]);
    let m2 = h_many(b"domain", &vec![b"ab".to_vec()]);
    assert_ne!(m1.to_vec(), m2.to_vec());
}

#[test]
fn transcript_absorb_and_challenge_changes() {
    let mut t1 = Transcript::new(b"ns");
    let mut t2 = Transcript::new(b"ns");
    t1.absorb(b"k", b"v");
    t2.absorb(b"k", b"v");
    assert_eq!(t1.challenge_bytes(16), t2.challenge_bytes(16));
    t1.absorb(b"k", b"v2");
    assert_ne!(t1.challenge_bytes(16), t2.challenge_bytes(16));
}

#[test]
fn challenge_words_deterministic() {
    let mut t1 = Transcript::new(b"seed");
    let mut t2 = Transcript::new(b"seed");
    t1.absorb(b"x", b"payload");
    t2.absorb(b"x", b"payload");
    let w1 = t1.challenge_words(16);
    let w2 = t2.challenge_words(16);
    assert_eq!(w1, w2);
    // a different history gives a different stream
    let t3 = Transcript::new(b"other");
    let w3 = t3.challenge_words(16);
    assert_ne!(w1, w3);
    // reading does not advance the state
    assert_eq!(t1.challenge_u64(), t2.challenge_u64());
    assert_eq!(t1.challenge_bytes(8), t1.challenge_bytes(8));
}

#[test]
fn challenge_u64_matches_bytes() {
    let t = Transcript::new(b"abc");
    let b = t.challenge_bytes(8);
    let mut word = [0u8; 8];
    word.copy_from_slice(&b);
    assert_eq!(t.challenge_u64(), u64::from_le_bytes(word));
}
