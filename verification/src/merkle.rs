//! Merkle tree over one FEC set.
//!
//! Leaves are the 64 shreds of a set in erasure-shard order (32 data, then 32
//! code). Internal nodes hash the first 20 bytes of each child; a node with
//! no right sibling pairs with itself. The leader signs the root, and every
//! shred carries the proof for its own leaf.

use vstd::prelude::*;

verus! {

pub type Hash32 = [u8; 32];

pub type ProofEntry = [u8; 20];

pub const PROOF_ENTRY_SIZE: usize = 20;

/// Proof entries for a 64 leaf tree.
pub const PROOF_ENTRIES_FOR_32_32: u8 = 6;

/// The SHA-256 digest that `solana_sha256_hasher::hashv` gives for `parts`.
pub uninterp spec fn sha256v(parts: Seq<Seq<u8>>) -> Hash32;

/// Calls `solana_sha256_hasher::hashv` and takes the digest's bytes. The digest
/// depends on the parts alone; what it is for given parts is left unsaid.
#[verifier::external_body]
fn hashv(parts: &[&[u8]]) -> (digest: Hash32)
    ensures
        digest == sha256v(parts@.map_values(|part: &[u8]| part@)),
{
    solana_sha256_hasher::hashv(parts).to_bytes()
}

/// Domain separation for leaves: a zero byte and `SOLANA_MERKLE_SHREDS_LEAF`.
pub open spec fn leaf_prefix() -> Seq<u8> {
    seq![
        0, 83, 79, 76, 65, 78, 65, 95, 77, 69, 82, 75, 76, 69, 95, 83, 72, 82, 69, 68, 83, 95, 76,
        69, 65, 70,
    ]
}

/// Domain separation for inner nodes: a one byte and `SOLANA_MERKLE_SHREDS_NODE`.
pub open spec fn node_prefix() -> Seq<u8> {
    seq![
        1, 83, 79, 76, 65, 78, 65, 95, 77, 69, 82, 75, 76, 69, 95, 83, 72, 82, 69, 68, 83, 95, 78,
        79, 68, 69,
    ]
}

/// Hash of a leaf's bytes.
pub open spec fn leaf_hash(bytes: Seq<u8>) -> Hash32 {
    sha256v(seq![leaf_prefix(), bytes])
}

/// Hash of a node over the first 20 bytes of its two children.
pub open spec fn node_hash(left: Seq<u8>, right: Seq<u8>) -> Hash32 {
    sha256v(seq![node_prefix(), left.take(20), right.take(20)])
}

/// Walk `proof`, a run of 20-byte siblings, up from `node` at `index`. A root
/// comes out only if the walk ends at index zero.
pub open spec fn proof_root(index: nat, node: Hash32, proof: Seq<u8>) -> Option<Hash32>
    decreases proof.len(),
{
    if proof.len() < 20 {
        if index == 0 {
            Some(node)
        } else {
            None
        }
    } else {
        let sibling = proof.take(20);
        let parent = if index % 2 == 0 {
            node_hash(node@, sibling)
        } else {
            node_hash(sibling, node@)
        };
        proof_root(index / 2, parent, proof.skip(20))
    }
}

/// The level above `level`: node `i` joins nodes `2i` and `2i + 1`, or node
/// `2i` and itself where it is the last.
pub open spec fn parent_level(level: Seq<Hash32>) -> Seq<Hash32> {
    Seq::new(
        (level.len() + 1) / 2,
        |i: int|
            node_hash(
                level[2 * i]@,
                level[if 2 * i + 1 < level.len() {
                    2 * i + 1
                } else {
                    2 * i
                }]@,
            ),
    )
}

/// All nodes of the tree over `level`: its leaves, then each level up to the root.
pub open spec fn tree_nodes(level: Seq<Hash32>) -> Seq<Hash32>
    decreases level.len(),
{
    if level.len() <= 1 {
        level
    } else {
        level + tree_nodes(parent_level(level))
    }
}

/// Root of the tree over `level`.
pub open spec fn tree_root(level: Seq<Hash32>) -> Hash32
    decreases level.len(),
{
    if level.len() <= 1 {
        level[0]
    } else {
        tree_root(parent_level(level))
    }
}

/// Position in a level of `len` nodes of the node that `index` is joined with.
pub open spec fn sibling_index(index: nat, len: nat) -> int {
    if index % 2 == 1 {
        index - 1
    } else if index + 1 < len {
        (index + 1) as int
    } else {
        index as int
    }
}

/// The 20-byte siblings on the way from leaf `index` of `level` up to the root.
pub open spec fn tree_proof(level: Seq<Hash32>, index: nat) -> Seq<Seq<u8>>
    decreases level.len(),
{
    if level.len() <= 1 {
        Seq::empty()
    } else {
        seq![level[sibling_index(index, level.len())]@.take(20)] + tree_proof(
            parent_level(level),
            index / 2,
        )
    }
}

/// The proof of any leaf, walked from that leaf, leads to the root of the tree.
pub proof fn law_proof_reproduces_root(leaves: Seq<Hash32>, index: nat)
    requires
        index < leaves.len(),
    ensures
        proof_root(index, leaves[index as int], tree_proof(leaves, index).flatten()) == Some(
            tree_root(leaves),
        ),
    decreases leaves.len(),
{
    if leaves.len() <= 1 {
        assert(tree_proof(leaves, index).flatten().len() == 0);
    } else {
        let up = parent_level(leaves);
        let entry = leaves[sibling_index(index, leaves.len())]@.take(20);
        let rest = tree_proof(up, index / 2);
        law_proof_reproduces_root(up, index / 2);
        let full = tree_proof(leaves, index);
        assert(full.drop_first() =~= rest);
        assert(full.flatten() =~= entry + rest.flatten());
        assert(full.flatten().take(20) =~= entry);
        assert(full.flatten().skip(20) =~= rest.flatten());
        assert(entry.take(20) =~= entry);
        let half = (index / 2) as int;
        if index % 2 == 0 {
            assert(2 * half == index);
            assert(up[half] == node_hash(leaves[index as int]@, entry));
        } else {
            assert(2 * half + 1 == index);
            assert(up[half] == node_hash(entry, leaves[index as int]@));
        }
    }
}

/// A walk yields a root exactly if the proof has an entry for every level that
/// `index` needs to come down to zero.
pub proof fn law_proof_long_enough(index: nat, node: Hash32, proof: Seq<u8>)
    ensures
        proof_root(index, node, proof) is Some <==> (index as int) < vstd::arithmetic::power2::pow2(
            (proof.len() / 20) as nat,
        ),
    decreases proof.len(),
{
    broadcast use vstd::arithmetic::power2::lemma_pow2_unfold;

    if proof.len() < 20 {
        vstd::arithmetic::power2::lemma2_to64();
    } else {
        let sibling = proof.take(20);
        let parent = if index % 2 == 0 {
            node_hash(node@, sibling)
        } else {
            node_hash(sibling, node@)
        };
        law_proof_long_enough(index / 2, parent, proof.skip(20));
        assert(proof.skip(20).len() / 20 == proof.len() / 20 - 1);
    }
}

/// How many levels there are above one of `n` nodes.
pub open spec fn levels_above(n: nat) -> nat
    decreases n,
{
    if n <= 1 {
        0
    } else {
        1 + levels_above((n + 1) / 2)
    }
}

/// A proof has one entry of 20 bytes for every level above the leaves.
pub proof fn law_proof_length(leaves: Seq<Hash32>, index: nat)
    requires
        index < leaves.len(),
    ensures
        tree_proof(leaves, index).len() == levels_above(leaves.len()),
        forall|i: int|
            0 <= i < tree_proof(leaves, index).len() ==> (#[trigger] tree_proof(
                leaves,
                index,
            )[i]).len() == 20,
    decreases leaves.len(),
{
    if leaves.len() > 1 {
        law_proof_length(parent_level(leaves), index / 2);
        let rest = tree_proof(parent_level(leaves), index / 2);
        let all = tree_proof(leaves, index);
        assert forall|i: int| 0 <= i < all.len() implies (#[trigger] all[i]).len() == 20 by {
            if i > 0 {
                assert(all[i] == rest[i - 1]);
            }
        }
    }
}

/// The tree over the 64 shreds of a FEC set has proofs of
/// `PROOF_ENTRIES_FOR_32_32` entries.
pub proof fn law_proof_length_for_a_set(leaves: Seq<Hash32>, index: nat)
    requires
        leaves.len() == 64,
        index < 64,
    ensures
        tree_proof(leaves, index).len() == PROOF_ENTRIES_FOR_32_32,
{
    law_proof_length(leaves, index);
    reveal_with_fuel(levels_above, 8);
}

/// The bytes of a text of ASCII characters.
pub open spec fn ascii(text: Seq<char>) -> Seq<u8> {
    text.map_values(|c: char| c as u8)
}

/// What is hashed for a leaf: a zero byte and `SOLANA_MERKLE_SHREDS_LEAF`, then all
/// bytes of the leaf.
pub open spec fn leaf_parts(bytes: Seq<u8>) -> Seq<Seq<u8>> {
    seq![seq![0u8] + ascii("SOLANA_MERKLE_SHREDS_LEAF"@), bytes]
}

/// What is hashed for an inner node: a one byte and `SOLANA_MERKLE_SHREDS_NODE`, then
/// the first 20 bytes of either child.
pub open spec fn node_parts(left: Seq<u8>, right: Seq<u8>) -> Seq<Seq<u8>> {
    seq![
        seq![1u8] + ascii("SOLANA_MERKLE_SHREDS_NODE"@),
        left.subrange(0, 20),
        right.subrange(0, 20),
    ]
}

/// Whether two inputs to the hash differ, but not the part of their digests that goes
/// on up the tree.
pub open spec fn clash(a: Seq<Seq<u8>>, b: Seq<Seq<u8>>) -> bool {
    a.flatten() != b.flatten() && sha256v(a)@.subrange(0, 20) == sha256v(b)@.subrange(0, 20)
}

/// Whether two walks up the same proof come upon a clash.
pub open spec fn clash_on_the_way(index: nat, a: Hash32, b: Hash32, proof: Seq<u8>) -> bool
    decreases proof.len(),
{
    if proof.len() < 20 {
        false
    } else {
        let sibling = proof.subrange(0, 20);
        let (up_a, up_b) = if index % 2 == 0 {
            (node_parts(a@, sibling), node_parts(b@, sibling))
        } else {
            (node_parts(sibling, a@), node_parts(sibling, b@))
        };
        clash(up_a, up_b) || clash_on_the_way(
            index / 2,
            sha256v(up_a),
            sha256v(up_b),
            proof.skip(20),
        )
    }
}

/// Parts, one after the other.
proof fn lemma_flatten(a: Seq<u8>, b: Seq<u8>, c: Seq<u8>)
    ensures
        seq![a, b].flatten() == a + b,
        seq![a, b, c].flatten() == a + b + c,
{
    let two = seq![a, b];
    let three = seq![a, b, c];
    assert(three.drop_first() =~= seq![b, c]);
    assert(seq![b, c].drop_first() =~= seq![c]);
    assert(seq![c].drop_first() =~= Seq::empty());
    assert(two.drop_first() =~= seq![b]);
    assert(seq![b].drop_first() =~= Seq::empty());
    assert(Seq::<Seq<u8>>::empty().flatten() =~= Seq::empty());
    assert(seq![c].flatten() =~= c);
    assert(seq![b].flatten() =~= b);
    assert(seq![b, c].flatten() =~= b + c);
    assert(two.flatten() =~= a + b);
    assert(three.flatten() =~= a + b + c);
}

/// The prefixes are what they are said to be.
proof fn lemma_prefixes()
    ensures
        leaf_prefix() == seq![0u8] + ascii("SOLANA_MERKLE_SHREDS_LEAF"@),
        node_prefix() == seq![1u8] + ascii("SOLANA_MERKLE_SHREDS_NODE"@),
{
    reveal_strlit("SOLANA_MERKLE_SHREDS_LEAF");
    reveal_strlit("SOLANA_MERKLE_SHREDS_NODE");
    assert(leaf_prefix() =~= seq![0u8] + ascii("SOLANA_MERKLE_SHREDS_LEAF"@));
    assert(node_prefix() =~= seq![1u8] + ascii("SOLANA_MERKLE_SHREDS_NODE"@));
}

/// A leaf is hashed whole, however long it is, behind the prefix for leaves. A node is
/// hashed behind another prefix, so that none of the two is taken for the other.
pub proof fn law_what_is_hashed(leaf: Seq<u8>, left: Seq<u8>, right: Seq<u8>)
    requires
        left.len() >= 20,
        right.len() >= 20,
    ensures
        leaf_hash(leaf) == sha256v(leaf_parts(leaf)),
        node_hash(left, right) == sha256v(node_parts(left, right)),
        leaf_parts(leaf).flatten() == leaf_prefix() + leaf,
        leaf_prefix().len() == 26,
        node_prefix().len() == 26,
        leaf_parts(leaf).flatten() != node_parts(left, right).flatten(),
{
    lemma_prefixes();
    assert(leaf_parts(leaf) =~= seq![leaf_prefix(), leaf]);
    assert(node_parts(left, right) =~= seq![node_prefix(), left.take(20), right.take(20)]);
    lemma_flatten(leaf_prefix(), leaf, leaf);
    lemma_flatten(node_prefix(), left.take(20), right.take(20));
    assert(leaf_parts(leaf).flatten()[0] == 0);
    assert(node_parts(left, right).flatten()[0] == 1);
}

/// Leaves that differ in any byte, or in length, have different hashes, and these differ
/// in the part that goes on up the tree, unless the digest has a clash there.
pub proof fn law_leaves_that_differ(a: Seq<u8>, b: Seq<u8>)
    requires
        a != b,
        !clash(leaf_parts(a), leaf_parts(b)),
    ensures
        leaf_hash(a) != leaf_hash(b),
        leaf_hash(a)@.subrange(0, 20) != leaf_hash(b)@.subrange(0, 20),
{
    let some: Seq<u8> = Seq::new(20, |i: int| 0u8);
    law_what_is_hashed(a, some, some);
    law_what_is_hashed(b, some, some);
    assert((leaf_prefix() + a).skip(26) =~= a);
    assert((leaf_prefix() + b).skip(26) =~= b);
}

/// Nodes over children that differ in their first 20 bytes, on either side, differ in
/// the part that goes on up the tree, unless the digest has a clash there. What else the
/// children differ in makes no difference.
pub proof fn law_nodes_that_differ(
    left: Seq<u8>,
    right: Seq<u8>,
    other_left: Seq<u8>,
    other_right: Seq<u8>,
)
    requires
        left.len() >= 20,
        right.len() >= 20,
        other_left.len() >= 20,
        other_right.len() >= 20,
        !clash(node_parts(left, right), node_parts(other_left, other_right)),
    ensures
        node_hash(left, right)@.subrange(0, 20) == node_hash(other_left, other_right)@.subrange(
            0,
            20,
        ) <==> left.subrange(0, 20) == other_left.subrange(0, 20) && right.subrange(0, 20)
            == other_right.subrange(0, 20),
{
    law_what_is_hashed(left, left, right);
    law_what_is_hashed(left, other_left, other_right);
    let l = left.subrange(0, 20);
    let r = right.subrange(0, 20);
    let p = other_left.subrange(0, 20);
    let q = other_right.subrange(0, 20);
    lemma_prefixes();
    lemma_flatten(node_prefix(), l, r);
    lemma_flatten(node_prefix(), p, q);
    assert((node_prefix() + l + r).subrange(26, 46) =~= l);
    assert((node_prefix() + l + r).subrange(46, 66) =~= r);
    assert((node_prefix() + p + q).subrange(26, 46) =~= p);
    assert((node_prefix() + p + q).subrange(46, 66) =~= q);
}

/// One entry of a proof takes a walk one level up: an even node is the left child, an
/// odd one the right child. Without entries the walk is at its end.
pub proof fn law_proof_step(index: nat, node: Hash32, sibling: Seq<u8>, rest: Seq<u8>)
    requires
        sibling.len() == 20,
    ensures
        proof_root(2 * index, node, sibling + rest) == proof_root(
            index,
            sha256v(node_parts(node@, sibling)),
            rest,
        ),
        proof_root(2 * index + 1, node, sibling + rest) == proof_root(
            index,
            sha256v(node_parts(sibling, node@)),
            rest,
        ),
        proof_root(index, node, Seq::empty()) == (if index == 0 {
            Some(node)
        } else {
            None
        }),
{
    law_what_is_hashed(sibling, node@, sibling);
    law_what_is_hashed(sibling, sibling, node@);
    assert((sibling + rest).take(20) =~= sibling);
    assert((sibling + rest).skip(20) =~= rest);
}

/// Nodes that differ do not lead up the same proof to the same root, unless the digest
/// has a clash on the way.
pub proof fn law_proof_binds(index: nat, a: Hash32, b: Hash32, proof: Seq<u8>)
    requires
        a@.subrange(0, 20) != b@.subrange(0, 20),
        !clash_on_the_way(index, a, b, proof),
        proof_root(index, a, proof) is Some,
    ensures
        proof_root(index, b, proof) is Some,
        proof_root(index, a, proof) != proof_root(index, b, proof),
    decreases proof.len(),
{
    if proof.len() >= 20 {
        let sibling = proof.subrange(0, 20);
        assert(sibling =~= proof.take(20));
        assert(sibling.subrange(0, 20) =~= sibling);
        if index % 2 == 0 {
            law_what_is_hashed(sibling, a@, sibling);
            law_what_is_hashed(sibling, b@, sibling);
            law_nodes_that_differ(a@, sibling, b@, sibling);
            law_proof_binds(
                index / 2,
                node_hash(a@, sibling),
                node_hash(b@, sibling),
                proof.skip(20),
            );
        } else {
            law_what_is_hashed(sibling, sibling, a@);
            law_what_is_hashed(sibling, sibling, b@);
            law_nodes_that_differ(sibling, a@, sibling, b@);
            law_proof_binds(
                index / 2,
                node_hash(sibling, a@),
                node_hash(sibling, b@),
                proof.skip(20),
            );
        }
    }
}

/// The root of a full tree is the node over the roots of its two halves, and a leaf
/// alone is its own root.
pub proof fn law_root_of_halves(left: Seq<Hash32>, right: Seq<Hash32>, height: nat)
    requires
        left.len() == vstd::arithmetic::power2::pow2(height),
        right.len() == left.len(),
    ensures
        tree_root(left + right) == sha256v(node_parts(tree_root(left)@, tree_root(right)@)),
        height == 0 ==> tree_root(left) == left[0],
    decreases height,
{
    broadcast use vstd::arithmetic::power2::lemma_pow2_unfold;

    let all = left + right;
    if height == 0 {
        vstd::arithmetic::power2::lemma2_to64();
        law_what_is_hashed(Seq::empty(), left[0]@, right[0]@);
        assert(parent_level(all) =~= seq![node_hash(left[0]@, right[0]@)]);
        assert(tree_root(parent_level(all)) == parent_level(all)[0]);
    } else {
        vstd::arithmetic::power2::lemma_pow2_pos((height - 1) as nat);
        let up_left = parent_level(left);
        let up_right = parent_level(right);
        let half = vstd::arithmetic::power2::pow2((height - 1) as nat);
        assert(left.len() == 2 * half);
        assert(parent_level(all) =~= up_left + up_right);
        law_root_of_halves(up_left, up_right, (height - 1) as nat);
    }
}

/// A node without a right sibling is paired with itself: a level with an odd number of
/// nodes has the root that it has with its last node once more.
pub proof fn law_lone_node_pairs_with_itself(level: Seq<Hash32>)
    requires
        level.len() > 1,
        level.len() % 2 == 1,
    ensures
        tree_root(level) == tree_root(level.push(level.last())),
{
    assert(parent_level(level) =~= parent_level(level.push(level.last())));
}

/// The last of a tree's nodes is its root.
proof fn lemma_root_is_last(level: Seq<Hash32>)
    requires
        level.len() >= 1,
    ensures
        tree_nodes(level).len() >= level.len(),
        tree_nodes(level).last() == tree_root(level),
    decreases level.len(),
{
    if level.len() > 1 {
        lemma_root_is_last(parent_level(level));
    }
}

/// Hash a leaf.
pub fn leaf(bytes: &[u8]) -> (digest: Hash32)
    ensures
        digest == leaf_hash(bytes@),
{
    let prefix: [u8; 26] = [
        0, 83, 79, 76, 65, 78, 65, 95, 77, 69, 82, 75, 76, 69, 95, 83, 72, 82, 69, 68, 83, 95, 76,
        69, 65, 70,
    ];
    let parts: [&[u8]; 2] = [&prefix, bytes];
    assert(prefix@ =~= leaf_prefix());
    assert(parts@.map_values(|part: &[u8]| part@) =~= seq![leaf_prefix(), bytes@]);
    hashv(&parts)
}

/// Hash the first 20 bytes of two children into their parent.
fn join(left: &[u8], right: &[u8]) -> (digest: Hash32)
    requires
        left@.len() >= 20,
        right@.len() >= 20,
    ensures
        digest == node_hash(left@, right@),
{
    let prefix: [u8; 26] = [
        1, 83, 79, 76, 65, 78, 65, 95, 77, 69, 82, 75, 76, 69, 95, 83, 72, 82, 69, 68, 83, 95, 78,
        79, 68, 69,
    ];
    let parts: [&[u8]; 3] = [&prefix, &left[0..20], &right[0..20]];
    assert(prefix@ =~= node_prefix());
    assert(parts@.map_values(|part: &[u8]| part@) =~= seq![
        node_prefix(),
        left@.take(20),
        right@.take(20),
    ]);
    hashv(&parts)
}

/// Walk a proof up from `leaf` at `index`. `proof` is the flattened 20-byte
/// entries. Returns `None` if the proof is too short for the index.
pub fn root_from_proof(index: usize, leaf: Hash32, proof: &[u8]) -> (root: Option<Hash32>)
    ensures
        root == proof_root(index as nat, leaf, proof@),
{
    let mut at: usize = 0;
    let mut position: usize = index;
    let mut node: Hash32 = leaf;
    assert(proof@.skip(0) =~= proof@);
    while proof.len() - at >= PROOF_ENTRY_SIZE
        invariant
            at <= proof@.len(),
            proof_root(index as nat, leaf, proof@) == proof_root(
                position as nat,
                node,
                proof@.skip(at as int),
            ),
        decreases proof@.len() - at,
    {
        let sibling: &[u8] = &proof[at..at + 20];
        assert(sibling@ =~= proof@.skip(at as int).take(20));
        assert(proof@.skip(at as int).skip(20) =~= proof@.skip(at + 20));
        node = if position % 2 == 0 {
            join(&node, sibling)
        } else {
            join(sibling, &node)
        };
        position = position / 2;
        at = at + 20;
    }
    if position == 0 {
        Some(node)
    } else {
        None
    }
}

/// The first 20 bytes of a hash.
fn proof_entry(hash: &Hash32) -> (entry: ProofEntry)
    ensures
        entry@ == hash@.take(20),
{
    let mut entry: ProofEntry = [0; 20];
    let mut i: usize = 0;
    while i < 20
        invariant
            i <= 20,
            forall|k: int| 0 <= k < i ==> entry@[k] == hash@[k],
        decreases 20 - i,
    {
        entry[i] = hash[i];
        i = i + 1;
    }
    assert(entry@ =~= hash@.take(20));
    entry
}

/// A full tree, used to check a recovered set and to build the proofs of its
/// shreds.
pub struct Tree {
    // Leaves first, then each level up to the root.
    nodes: Vec<Hash32>,
    num_leaves: usize,
}

impl View for Tree {
    type V = Seq<Hash32>;

    /// The leaves of the tree.
    closed spec fn view(&self) -> Seq<Hash32> {
        self.nodes@.take(self.num_leaves as int)
    }
}

impl Tree {
    #[verifier::type_invariant]
    spec fn well_formed(&self) -> bool {
        &&& 1 <= self.num_leaves <= self.nodes@.len()
        &&& self.nodes@ == tree_nodes(self@)
    }

    /// Hash every level of the tree over `leaves`.
    pub fn new(leaves: Vec<Hash32>) -> (tree: Self)
        requires
            leaves@.len() > 0,
        ensures
            tree@ == leaves@,
    {
        let num_leaves: usize = leaves.len();
        let ghost base = leaves@;
        let mut nodes: Vec<Hash32> = leaves;
        let mut offset: usize = 0;
        let mut size: usize = num_leaves;
        let ghost mut level = base;
        assert(nodes@.take(0) + tree_nodes(level) =~= tree_nodes(base));
        while size > 1
            invariant
                base.len() == num_leaves >= 1,
                size == level.len() >= 1,
                nodes@.len() == offset + size,
                nodes@.len() >= num_leaves,
                nodes@.take(num_leaves as int) == base,
                nodes@.skip(offset as int) == level,
                nodes@.take(offset as int) + tree_nodes(level) == tree_nodes(base),
            decreases size,
        {
            let half: usize = size / 2 + size % 2;
            let end: usize = nodes.len();
            let ghost before = nodes@;
            let ghost up = parent_level(level);
            let mut j: usize = 0;
            while j < half
                invariant
                    j <= half,
                    half == up.len() == (size + 1) / 2,
                    up == parent_level(level),
                    size == level.len() >= 2,
                    end == offset + size,
                    before.len() == end,
                    before.skip(offset as int) == level,
                    nodes@ == before + up.take(j as int),
                decreases half - j,
            {
                let i: usize = offset + 2 * j;
                let right: usize = if 2 * j + 1 < size {
                    i + 1
                } else {
                    i
                };
                assert(nodes@[i as int] == before[i as int]);
                assert(nodes@[right as int] == before[right as int]);
                assert(before.skip(offset as int)[2 * j as int] == before[i as int]);
                assert(before.skip(offset as int)[right - offset] == before[right as int]);
                let parent: Hash32 = join(&nodes[i], &nodes[right]);
                assert(parent == up[j as int]);
                nodes.push(parent);
                assert(up.take(j as int).push(parent) =~= up.take(j + 1));
                assert(nodes@ =~= before + up.take(j + 1));
                j = j + 1;
            }
            assert(up.take(half as int) =~= up);
            proof {
                assert(nodes@.take(num_leaves as int) =~= before.take(num_leaves as int));
                assert(nodes@.skip(end as int) =~= up);
                assert(nodes@.take(end as int) =~= before);
                assert(before =~= before.take(offset as int) + level);
                assert(before.take(offset as int) =~= nodes@.take(offset as int));
                assert(tree_nodes(level) == level + tree_nodes(up));
                assert(before + tree_nodes(up) =~= before.take(offset as int) + tree_nodes(level));
                level = up;
            }
            offset = end;
            size = half;
        }
        assert(nodes@ =~= nodes@.take(offset as int) + level);
        Self { nodes, num_leaves }
    }

    /// The root, which the leader signs.
    pub fn root(&self) -> (root: Hash32)
        ensures
            root == tree_root(self@),
    {
        proof {
            use_type_invariant(self);
            lemma_root_is_last(self@);
        }
        self.nodes[self.nodes.len() - 1]
    }

    /// The siblings on the way from leaf `index` to the root.
    pub fn proof_of(&self, index: usize) -> (entries: Vec<ProofEntry>)
        requires
            index < self@.len(),
        ensures
            entries@.map_values(|entry: ProofEntry| entry@) == tree_proof(self@, index as nat),
    {
        proof {
            use_type_invariant(self);
        }
        let mut entries: Vec<ProofEntry> = Vec::new();
        let mut position: usize = index;
        let mut offset: usize = 0;
        let mut size: usize = self.num_leaves;
        let total: usize = self.nodes.len();
        let ghost mut level = self@;
        let ghost mut done: Seq<Seq<u8>> = Seq::empty();
        assert(self.nodes@.skip(0) =~= tree_nodes(level));
        assert(done + tree_proof(level, position as nat) =~= tree_proof(self@, index as nat));
        while size > 1
            invariant
                offset <= total == self.nodes@.len(),
                position < size == level.len(),
                self.nodes@.skip(offset as int) == tree_nodes(level),
                entries@.map_values(|entry: ProofEntry| entry@) == done,
                done + tree_proof(level, position as nat) == tree_proof(self@, index as nat),
            decreases size,
        {
            let sibling: usize = if position % 2 == 1 {
                position - 1
            } else if position + 1 < size {
                position + 1
            } else {
                position
            };
            let ghost up = parent_level(level);
            proof {
                lemma_root_is_last(level);
                lemma_root_is_last(up);
                assert(tree_nodes(level)[sibling as int] == level[sibling as int]);
                assert(self.nodes@.skip(offset as int)[sibling as int] == self.nodes@[offset
                    + sibling]);
                assert(self.nodes@.skip(offset + size) =~= tree_nodes(level).skip(size as int));
                assert(tree_nodes(level).skip(size as int) =~= tree_nodes(up));
            }
            let entry: ProofEntry = proof_entry(&self.nodes[offset + sibling]);
            entries.push(entry);
            proof {
                assert(entries@.map_values(|entry: ProofEntry| entry@) =~= done.push(entry@));
                assert(done.push(entry@) + tree_proof(up, (position / 2) as nat) =~= done
                    + tree_proof(level, position as nat));
                done = done.push(entry@);
                level = up;
            }
            offset = offset + size;
            size = size / 2 + size % 2;
            position = position / 2;
        }
        assert(done + tree_proof(level, position as nat) =~= done);
        entries
    }
}

} // verus!
