//! A complete binary Merkle tree over byte-string leaves, in the usual
//! 1-indexed heap layout: the root at index 1, children of node i at 2i and
//! 2i + 1, the leaves in the upper half of the node array. Leaf lists whose
//! length is not a power of two are padded by replicating the last leaf.

use vstd::prelude::*;
use vstd::arithmetic::power2::pow2;
use crate::hash::{h2, h2_input, xof_of, views_of, dom_merkle_node, dom_merkle_node_bytes,
    DIGEST_LEN};

verus! {

/// The digest of an internal node over its two children.
pub open spec fn node_hash_of(l: Seq<u8>, r: Seq<u8>) -> Seq<u8> {
    xof_of(h2_input(dom_merkle_node(), l, r), DIGEST_LEN as nat)
}

/// Whether n is a power of two.
pub open spec fn is_pow2(n: nat) -> bool
    decreases n,
{
    if n == 0 {
        false
    } else if n == 1 {
        true
    } else {
        n % 2 == 0 && is_pow2(n / 2)
    }
}

/// The index of the sibling of a node in the heap layout.
pub open spec fn sibling(pos: nat) -> nat {
    if pos % 2 == 0 {
        pos + 1
    } else {
        (pos - 1) as nat
    }
}

/// The sibling digests along the path from node `pos` up to the root.
pub open spec fn spec_open(nodes: Seq<Seq<u8>>, pos: nat) -> Seq<Seq<u8>>
    decreases pos,
{
    if pos <= 1 {
        Seq::empty()
    } else {
        seq![nodes[sibling(pos) as int]] + spec_open(nodes, pos / 2)
    }
}

/// The number of levels above node `pos`.
pub open spec fn path_len(pos: nat) -> nat
    decreases pos,
{
    if pos <= 1 {
        0
    } else {
        1 + path_len(pos / 2)
    }
}

/// Fold a leaf digest up a sibling path: at each level the sibling stands on
/// the right when the current index is even, on the left when it is odd.
pub open spec fn merkle_fold(leaf: Seq<u8>, idx: nat, path: Seq<Seq<u8>>) -> Seq<u8>
    decreases path.len(),
{
    if path.len() == 0 {
        leaf
    } else {
        let next = if idx % 2 == 0 {
            node_hash_of(leaf, path[0])
        } else {
            node_hash_of(path[0], leaf)
        };
        merkle_fold(next, idx / 2, path.drop_first())
    }
}

/// Smallest power of two at or above `x`.
pub fn next_pow2(x: usize) -> (r: usize)
    requires
        x >= 1,
        2 * x - 1 <= usize::MAX,
    ensures
        is_pow2(r as nat),
        r >= x,
        r < 2 * x,
{
    let mut m: usize = 1;
    while m < x
        invariant
            is_pow2(m as nat),
            1 <= m,
            m < 2 * x,
            2 * x - 1 <= usize::MAX,
        decreases 2 * x - m,
    {
        m = m * 2;
    }
    m
}

pub struct MerkleTree {
    nodes: Vec<Vec<u8>>,
}

impl MerkleTree {
    /// All nodes of the tree in heap layout; index 0 is unused.
    pub closed spec fn nodes_spec(self) -> Seq<Seq<u8>> {
        views_of(self.nodes@)
    }

    /// The number of (padded) leaf slots.
    pub open spec fn leaf_count(self) -> nat {
        self.nodes_spec().len() / 2
    }

    /// The stored digest of leaf slot `i`.
    pub open spec fn leaf_at(self, i: int) -> Seq<u8> {
        self.nodes_spec()[self.leaf_count() + i]
    }

    /// Well-formed: a power-of-two number of leaf slots, and every internal
    /// node is the domain-separated hash of its two children.
    pub open spec fn wf(self) -> bool {
        &&& self.nodes_spec().len() == 2 * self.leaf_count()
        &&& is_pow2(self.leaf_count())
        &&& forall|i: int|
            1 <= i < self.leaf_count() ==> #[trigger] self.nodes_spec()[i]
                == node_hash_of(self.nodes_spec()[2 * i], self.nodes_spec()[2 * i + 1])
    }

    /// What the padded leaf list holds at slot `i`: the given leaf when in
    /// range, the last given leaf beyond it.
    pub open spec fn padded_leaf(leaves: Seq<Seq<u8>>, i: int) -> Seq<u8> {
        if i < leaves.len() {
            leaves[i]
        } else {
            leaves[leaves.len() - 1]
        }
    }

    /// Build the tree over the given leaves, padded to a power of two by
    /// replicating the last leaf.
    pub fn build(leaves: &Vec<Vec<u8>>) -> (r: Self)
        requires
            leaves@.len() >= 1,
            4 * leaves@.len() <= usize::MAX,
        ensures
            r.wf(),
            leaves@.len() <= r.leaf_count() < 2 * leaves@.len(),
            forall|i: int|
                0 <= i < r.leaf_count() ==> r.leaf_at(i)
                    == Self::padded_leaf(views_of(leaves@), i),
    {
        let len = leaves.len();
        let n = next_pow2(len);
        let mut nodes: Vec<Vec<u8>> = Vec::new();
        let mut k: usize = 0;
        while k < 2 * n
            invariant
                nodes@.len() == k,
                k <= 2 * n,
                2 * n <= usize::MAX,
            decreases 2 * n - k,
        {
            nodes.push(Vec::new());
            k = k + 1;
        }
        let mut i: usize = 0;
        while i < n
            invariant
                nodes@.len() == 2 * n,
                2 * n <= usize::MAX,
                i <= n,
                n >= len,
                len == leaves@.len() >= 1,
                forall|j: int|
                    0 <= j < i ==> views_of(nodes@)[n + j]
                        == Self::padded_leaf(views_of(leaves@), j),
            decreases n - i,
        {
            if i < len {
                nodes[n + i] = leaves[i].clone();
            } else {
                nodes[n + i] = leaves[len - 1].clone();
            }
            i = i + 1;
        }
        let label = dom_merkle_node_bytes();
        let mut j: usize = n;
        while j > 1
            invariant
                nodes@.len() == 2 * n,
                2 * n <= usize::MAX,
                1 <= j <= n,
                n >= len,
                len == leaves@.len() >= 1,
                label@ == dom_merkle_node(),
                forall|q: int|
                    0 <= q < n ==> views_of(nodes@)[n + q]
                        == Self::padded_leaf(views_of(leaves@), q),
                forall|q: int|
                    j <= q < n ==> #[trigger] views_of(nodes@)[q]
                        == node_hash_of(views_of(nodes@)[2 * q], views_of(nodes@)[2 * q + 1]),
            decreases j,
        {
            j = j - 1;
            let h = h2(label.as_slice(), nodes[2 * j].as_slice(), nodes[2 * j + 1].as_slice());
            let ghost prev = nodes@;
            nodes[j] = h;
            proof {
                assert(forall|q: int| 0 <= q < 2 * n && q != j ==> nodes@[q] == prev[q]);
                assert forall|q: int| j <= q < n implies #[trigger] views_of(nodes@)[q]
                    == node_hash_of(views_of(nodes@)[2 * q], views_of(nodes@)[2 * q + 1]) by {
                    if q == j {
                        assert(views_of(nodes@)[q] == h@);
                        assert(nodes@[2 * q] == prev[2 * q]);
                        assert(nodes@[2 * q + 1] == prev[2 * q + 1]);
                    } else {
                        assert(views_of(prev)[q]
                            == node_hash_of(views_of(prev)[2 * q], views_of(prev)[2 * q + 1]));
                        assert(nodes@[q] == prev[q]);
                        assert(nodes@[2 * q] == prev[2 * q]);
                        assert(nodes@[2 * q + 1] == prev[2 * q + 1]);
                    }
                }
            }
        }
        let t = MerkleTree { nodes };
        proof {
            assert(t.leaf_count() == n);
        }
        t
    }

    /// The root digest: node index 1.
    pub fn root(&self) -> (r: Vec<u8>)
        requires
            self.wf(),
        ensures
            r@ == self.nodes_spec()[1],
    {
        self.nodes[1].clone()
    }

    /// The sibling digests of leaf `idx`, bottom to top.
    pub fn open(&self, idx: usize) -> (r: Vec<Vec<u8>>)
        requires
            self.wf(),
            idx < self.leaf_count(),
        ensures
            views_of(r@) == spec_open(self.nodes_spec(), self.leaf_count() + idx as nat),
    {
        let mut path: Vec<Vec<u8>> = Vec::new();
        let base = self.nodes.len() / 2;
        let mut pos: usize = idx + base;
        let ghost start = (base + idx) as nat;
        proof {
            assert(spec_open(self.nodes_spec(), start)
                =~= views_of(path@) + spec_open(self.nodes_spec(), pos as nat));
        }
        while pos > 1
            invariant
                self.wf(),
                1 <= pos < self.nodes_spec().len(),
                spec_open(self.nodes_spec(), start)
                    == views_of(path@) + spec_open(self.nodes_spec(), pos as nat),
            decreases pos,
        {
            let sib = if pos % 2 == 0 { pos + 1 } else { pos - 1 };
            proof {
                assert(sib == sibling(pos as nat));
                if pos % 2 == 0 {
                    assert(pos + 1 < self.nodes_spec().len());
                }
            }
            path.push(self.nodes[sib].clone());
            pos = pos / 2;
            proof {
                assert(spec_open(self.nodes_spec(), start)
                    =~= views_of(path@) + spec_open(self.nodes_spec(), pos as nat));
            }
        }
        proof {
            assert(spec_open(self.nodes_spec(), start) =~= views_of(path@));
        }
        path
    }

    /// Fold `leaf` up the sibling path and compare with `root`.
    pub fn verify(root: &[u8], idx: usize, leaf: &[u8], path: &[Vec<u8>]) -> (r: bool)
        ensures
            r == (merkle_fold(leaf@, idx as nat, views_of(path@)) == root@),
    {
        let label = dom_merkle_node_bytes();
        let mut h: Vec<u8> = vstd::slice::slice_to_vec(leaf);
        let mut pos: usize = idx;
        let mut i: usize = 0;
        proof {
            assert(views_of(path@).skip(0) =~= views_of(path@));
        }
        while i < path.len()
            invariant
                i <= path@.len(),
                label@ == dom_merkle_node(),
                merkle_fold(leaf@, idx as nat, views_of(path@))
                    == merkle_fold(h@, pos as nat, views_of(path@).skip(i as int)),
            decreases path@.len() - i,
        {
            let ghost pre = views_of(path@).skip(i as int);
            let sib = vstd::slice::slice_index_get(path, i);
            proof {
                assert(pre[0] == views_of(path@)[i as int]);
                assert(pre.drop_first() =~= views_of(path@).skip(i + 1));
            }
            h = if pos % 2 == 0 {
                h2(label.as_slice(), h.as_slice(), sib.as_slice())
            } else {
                h2(label.as_slice(), sib.as_slice(), h.as_slice())
            };
            pos = pos / 2;
            i = i + 1;
        }
        proof {
            assert(views_of(path@).skip(path@.len() as int) =~= Seq::<Seq<u8>>::empty());
        }
        eq_bytes(h.as_slice(), root)
    }
}

/// Byte-wise equality of two slices.
pub fn eq_bytes(a: &[u8], b: &[u8]) -> (r: bool)
    ensures
        r == (a@ == b@),
{
    if a.len() != b.len() {
        proof {
            assert(a@.len() != b@.len());
        }
        return false;
    }
    let mut i: usize = 0;
    while i < a.len()
        invariant
            i <= a@.len(),
            a@.len() == b@.len(),
            forall|j: int| 0 <= j < i ==> a@[j] == b@[j],
        decreases a@.len() - i,
    {
        if *vstd::slice::slice_index_get(a, i) != *vstd::slice::slice_index_get(b, i) {
            return false;
        }
        i = i + 1;
    }
    proof {
        assert(a@ =~= b@);
    }
    true
}

/// Folding with index `a` equals folding with index `b` when a and b agree
/// on the low `path.len()` bits.
proof fn lemma_fold_low_bits(leaf: Seq<u8>, a: nat, b: nat, path: Seq<Seq<u8>>)
    requires
        a % pow2(path.len()) == b % pow2(path.len()),
    ensures
        merkle_fold(leaf, a, path) == merkle_fold(leaf, b, path),
    decreases path.len(),
{
    if path.len() > 0 {
        let l = path.len();
        let m = pow2(l) as int;
        let mh = pow2((l - 1) as nat) as int;
        vstd::arithmetic::power2::lemma_pow2_unfold(l);
        vstd::arithmetic::power2::lemma_pow2_pos((l - 1) as nat);
        let qa = a as int / m;
        let ra = a as int % m;
        let qb = b as int / m;
        let rb = b as int % m;
        vstd::arithmetic::div_mod::lemma_fundamental_div_mod(a as int, m);
        vstd::arithmetic::div_mod::lemma_fundamental_div_mod(b as int, m);
        assert(ra == rb);
        assert(m * qa == 2 * (qa * mh)) by (nonlinear_arith)
            requires m == 2 * mh;
        assert(m * qb == 2 * (qb * mh)) by (nonlinear_arith)
            requires m == 2 * mh;
        // low bit agrees
        vstd::arithmetic::div_mod::lemma_mod_multiples_vanish(qa * mh, ra, 2);
        vstd::arithmetic::div_mod::lemma_mod_multiples_vanish(qb * mh, rb, 2);
        assert(a % 2 == b % 2);
        // halves agree modulo 2^(l-1)
        assert(a as int / 2 == qa * mh + ra / 2) by {
            vstd::arithmetic::div_mod::lemma_hoist_over_denominator(ra, qa * mh, 2);
        }
        assert(b as int / 2 == qb * mh + rb / 2) by {
            vstd::arithmetic::div_mod::lemma_hoist_over_denominator(rb, qb * mh, 2);
        }
        assert(qa * mh + ra / 2 == mh * qa + ra / 2) by (nonlinear_arith);
        assert(qb * mh + rb / 2 == mh * qb + rb / 2) by (nonlinear_arith);
        vstd::arithmetic::div_mod::lemma_mod_multiples_vanish(qa, ra / 2, mh);
        vstd::arithmetic::div_mod::lemma_mod_multiples_vanish(qb, rb / 2, mh);
        assert((a / 2) % pow2((l - 1) as nat) == (b / 2) % pow2((l - 1) as nat));
        let next_a = if a % 2 == 0 {
            node_hash_of(leaf, path[0])
        } else {
            node_hash_of(path[0], leaf)
        };
        assert(path.drop_first().len() == l - 1);
        lemma_fold_low_bits(next_a, a / 2, b / 2, path.drop_first());
    }
}

/// Folding a stored node up its own opening path reaches the root.
proof fn lemma_fold_pos(t: MerkleTree, pos: nat)
    requires
        t.wf(),
        1 <= pos < t.nodes_spec().len(),
    ensures
        merkle_fold(t.nodes_spec()[pos as int], pos, spec_open(t.nodes_spec(), pos))
            == t.nodes_spec()[1],
    decreases pos,
{
    let nodes = t.nodes_spec();
    if pos > 1 {
        let sib = sibling(pos);
        let opened = spec_open(nodes, pos);
        assert(opened == seq![nodes[sib as int]] + spec_open(nodes, pos / 2));
        assert(opened.drop_first() =~= spec_open(nodes, pos / 2));
        assert(1 <= pos / 2 < t.leaf_count());
        assert(nodes[pos as int / 2]
            == node_hash_of(nodes[2 * (pos as int / 2)], nodes[2 * (pos as int / 2) + 1]));
        if pos % 2 == 0 {
            assert(2 * (pos as int / 2) == pos);
        } else {
            assert(2 * (pos as int / 2) + 1 == pos);
        }
        lemma_fold_pos(t, pos / 2);
    }
}

/// In a tree with a power-of-two number `n` of leaf slots, the path above
/// leaf slot `idx` spans exactly log2(n) levels.
proof fn lemma_path_len_pow(n: nat, idx: nat)
    requires
        is_pow2(n),
        idx < n,
    ensures
        pow2(path_len(n + idx)) == n,
    decreases n,
{
    if n == 1 {
        assert(path_len(1) == 0);
        vstd::arithmetic::power2::lemma2_to64();
    } else {
        assert((n + idx) / 2 == n / 2 + idx / 2);
        lemma_path_len_pow(n / 2, idx / 2);
        vstd::arithmetic::power2::lemma_pow2_unfold(path_len(n + idx));
    }
}

/// The length of the opening path equals the number of levels above `pos`.
proof fn lemma_spec_open_len(nodes: Seq<Seq<u8>>, pos: nat)
    ensures
        spec_open(nodes, pos).len() == path_len(pos),
    decreases pos,
{
    if pos > 1 {
        lemma_spec_open_len(nodes, pos / 2);
    }
}

/// Every honestly opened leaf verifies: folding the stored digest of leaf
/// slot `idx` up the path that `open` returns reproduces the root.
pub proof fn lemma_merkle_open_verifies(t: MerkleTree, idx: nat)
    requires
        t.wf(),
        idx < t.leaf_count(),
    ensures
        merkle_fold(t.leaf_at(idx as int), idx, spec_open(t.nodes_spec(), t.leaf_count() + idx))
            == t.nodes_spec()[1],
{
    let n = t.leaf_count();
    let pos = n + idx;
    lemma_fold_pos(t, pos);
    lemma_spec_open_len(t.nodes_spec(), pos);
    lemma_path_len_pow(n, idx);
    let path = spec_open(t.nodes_spec(), pos);
    vstd::arithmetic::power2::lemma_pow2_pos(path.len());
    vstd::arithmetic::div_mod::lemma_mod_multiples_vanish(1, idx as int, n as int);
    vstd::arithmetic::div_mod::lemma_small_mod(idx, n);
    lemma_fold_low_bits(t.leaf_at(idx as int), pos, idx, path);
}

} // verus!
