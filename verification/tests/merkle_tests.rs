use numiproof::hash::DIGEST_LEN;
use numiproof::merkle::MerkleTree;

fn leaf(i: u8) -> Vec<u8> {
    vec![i; DIGEST_LEN]
}

#[test]
fn merkle_inclusion_first_middle_last() {
    // Build tree with non-power-of-two leaves to test padding
    let leaves = vec![leaf(1), leaf(2), leaf(3), leaf(4), leaf(5)];
    let mt = MerkleTree::build(&leaves);
    let root = mt.root();

    for (i, l) in leaves.iter().enumerate() {
        let path = mt.open(i);
        assert!(MerkleTree::verify(&root, i, l, &path));
    }
    // Check padded last index equals last real leaf in storage
    let n = leaves.len().next_power_of_two();
    let last_real = leaves.len() - 1;
    let path = mt.open(n - 1);
    assert!(MerkleTree::verify(&root, n - 1, &leaves[last_real], &path));
}

#[test]
fn merkle_rejects_tampered_leaf_or_path() {
    let leaves = vec![leaf(9), leaf(8), leaf(7), leaf(6)];
    let mt = MerkleTree::build(&leaves);
    let root = mt.root();
    let idx = 2;
    let mut path = mt.open(idx);
    // Tamper with leaf
    let bad_leaf = leaf(0);
    assert!(!MerkleTree::verify(&root, idx, &bad_leaf, &path));
    // Tamper with path
    path[0][0] ^= 1;
    assert!(!MerkleTree::verify(&root, idx, &leaves[idx], &path));
}

#[test]
fn merkle_rejects_single_bit_flips_everywhere() {
    let leaves = vec![leaf(11), leaf(22), leaf(33), leaf(44)];
    let mt = MerkleTree::build(&leaves);
    let root = mt.root();
    let idx = 1;
    let path = mt.open(idx);
    // flipping any one bit of the leaf breaks verification
    for byte in 0..DIGEST_LEN {
        for bit in 0..8 {
            let mut bad = leaves[idx].clone();
            bad[byte] ^= 1 << bit;
            assert!(!MerkleTree::verify(&root, idx, &bad, &path));
        }
    }
    // flipping any one bit of any path node breaks verification
    for node in 0..path.len() {
        for byte in 0..DIGEST_LEN {
            let mut bad_path = path.clone();
            bad_path[node][byte] ^= 1;
            assert!(!MerkleTree::verify(&root, idx, &leaves[idx], &bad_path));
        }
    }
}
