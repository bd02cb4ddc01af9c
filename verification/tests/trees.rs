use deshred::merkle::{leaf, root_from_proof, Hash32, Tree, PROOF_ENTRIES_FOR_32_32};

#[test]
fn proofs_reproduce_root() {
    for n in [1usize, 2, 3, 5, 64] {
        let leaves: Vec<Hash32> = (0..n).map(|i| leaf(&[i as u8; 10])).collect();
        let tree = Tree::new(leaves.clone());
        for (i, l) in leaves.iter().enumerate() {
            let proof: Vec<u8> = tree.proof_of(i).concat();
            assert_eq!(
                root_from_proof(i, *l, &proof),
                Some(tree.root()),
                "n={n} i={i}"
            );
        }
    }
    let tree = Tree::new((0..64).map(|i| leaf(&[i])).collect());
    assert_eq!(tree.proof_of(0).len(), PROOF_ENTRIES_FOR_32_32 as usize);
}

#[test]
fn short_proof_is_rejected() {
    let tree = Tree::new((0..64).map(|i| leaf(&[i])).collect());
    let proof: Vec<u8> = tree.proof_of(5).concat();
    assert_eq!(root_from_proof(5, leaf(&[5]), &proof[..40]), None);
    assert_ne!(root_from_proof(6, leaf(&[5]), &proof), Some(tree.root()));
}

#[test]
fn hashes_are_those_of_sha256() {
    let bytes = [7u8; 100];
    let mut message = b"\x00SOLANA_MERKLE_SHREDS_LEAF".to_vec();
    message.extend_from_slice(&bytes);
    assert_eq!(
        leaf(&bytes),
        solana_sha256_hasher::hash(&message).to_bytes()
    );

    let (a, b) = (leaf(&[1]), leaf(&[2]));
    let mut message = b"\x01SOLANA_MERKLE_SHREDS_NODE".to_vec();
    message.extend_from_slice(&a[..20]);
    message.extend_from_slice(&b[..20]);
    let root = solana_sha256_hasher::hash(&message).to_bytes();
    assert_eq!(Tree::new(vec![a, b]).root(), root);
    assert_eq!(root_from_proof(0, a, &b[..20]), Some(root));
    assert_eq!(root_from_proof(1, b, &a[..20]), Some(root));
}

#[test]
fn a_node_without_a_sibling_pairs_with_itself() {
    let leaves: Vec<Hash32> = (0..3u8).map(|i| leaf(&[i])).collect();
    let tree = Tree::new(leaves.clone());
    let left = Tree::new(vec![leaves[0], leaves[1]]).root();
    let right = Tree::new(vec![leaves[2], leaves[2]]).root();
    assert_eq!(tree.root(), Tree::new(vec![left, right]).root());
    assert_eq!(tree.proof_of(2)[0], leaves[2][..20]);
}

#[test]
fn a_single_leaf_is_its_own_root() {
    let only = leaf(&[3]);
    let tree = Tree::new(vec![only]);
    assert_eq!(tree.root(), only);
    assert!(tree.proof_of(0).is_empty());
    assert_eq!(root_from_proof(0, only, &[]), Some(only));
    assert_eq!(root_from_proof(1, only, &[]), None);
}
