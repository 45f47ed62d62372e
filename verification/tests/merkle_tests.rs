use solvec_core::merkle::{compute_merkle_root, verify_merkle_proof, MerkleTree, NodePosition};

fn ids(n: usize) -> Vec<String> {
    (0..n).map(|i| format!("vec_{}", i)).collect()
}

fn strings(list: &[&str]) -> Vec<String> {
    list.iter().map(|s| s.to_string()).collect()
}

#[test]
fn test_single_element_tree() {
    let tree = MerkleTree::new(&ids(1));
    let root = tree.root();
    assert_ne!(root, [0u8; 32]);
}

#[test]
fn test_proof_verifies_correctly() {
    let id_list = ids(10);
    let tree = MerkleTree::new(&id_list);
    let root = tree.root();

    let proof = tree.generate_proof("vec_5").unwrap();
    assert!(proof.verify(&root), "Proof should verify against root");
}

#[test]
fn test_proof_fails_with_wrong_root() {
    let tree = MerkleTree::new(&ids(10));
    let wrong_root = [1u8; 32];
    let proof = tree.generate_proof("vec_3").unwrap();
    assert!(
        !proof.verify(&wrong_root),
        "Proof should fail with wrong root"
    );
}

#[test]
fn test_proof_nonexistent_id_returns_none() {
    let tree = MerkleTree::new(&ids(5));
    assert!(tree.generate_proof("nonexistent_id").is_none());
}

#[test]
fn test_different_id_sets_produce_different_roots() {
    let tree1 = MerkleTree::new(&ids(5));
    let tree2 = MerkleTree::new(&ids(6));
    assert_ne!(tree1.root(), tree2.root());
}

#[test]
fn test_all_proofs_verify() {
    let id_list = ids(20);
    let tree = MerkleTree::new(&id_list);
    let root = tree.root();

    for id in &id_list {
        let proof = tree.generate_proof(id).unwrap();
        assert!(proof.verify(&root), "Proof failed for id: {}", id);
    }
}

#[test]
fn test_empty_tree() {
    let tree = MerkleTree::new(&[]);
    assert_eq!(tree.root(), [0u8; 32]);
}

#[test]
fn single_leaf_root_is_the_leaf_digest() {
    let tree = MerkleTree::new(&ids(1));
    assert_eq!(
        tree.root_hex(),
        "33a64efe9bc90275900b424522f000b11b0be9115aa67b03d57f9ccc39cca107"
    );
    let proof = tree.generate_proof("vec_0").unwrap();
    assert!(proof.proof_nodes.is_empty());
    assert_eq!(proof.leaf_hash, tree.root());
}

#[test]
fn odd_layer_pairs_last_node_with_itself() {
    let tree = MerkleTree::new(&strings(&["a", "b", "c"]));
    assert_eq!(
        tree.root_hex(),
        "3fdbd536e2fb95b01f0611f343a94e5d3f5811fc2bb51a2a6154f7eb4dcf9124"
    );
    let proof = tree.generate_proof("c").unwrap();
    assert_eq!(proof.proof_nodes.len(), 2);
    // "c" is the left input at the bottom, paired with itself.
    assert_eq!(proof.proof_nodes[0].position, NodePosition::Right);
    assert_eq!(proof.proof_nodes[0].hash, proof.leaf_hash);
    assert_eq!(proof.proof_nodes[1].position, NodePosition::Left);
    assert!(proof.verify(&tree.root()));
}

#[test]
fn proof_records_id_and_root() {
    let tree = MerkleTree::new(&ids(7));
    let proof = tree.generate_proof("vec_6").unwrap();
    assert_eq!(proof.vector_id, "vec_6");
    assert_eq!(proof.root, tree.root());
    assert_eq!(proof.root_hex(), tree.root_hex());
    assert_eq!(proof.proof_nodes.len(), 3);
}

#[test]
fn tampered_proof_fails() {
    let tree = MerkleTree::new(&ids(8));
    let mut proof = tree.generate_proof("vec_2").unwrap();
    proof.proof_nodes[1].hash[0] ^= 1;
    assert!(!proof.verify(&tree.root()));
}

#[test]
fn duplicate_ids_prove_the_first_occurrence() {
    let tree = MerkleTree::new(&strings(&["x", "y", "x"]));
    assert_eq!(tree.vector_count(), 3);
    let proof = tree.generate_proof("x").unwrap();
    assert_eq!(proof.proof_nodes[0].position, NodePosition::Right);
    assert!(proof.verify(&tree.root()));
}

#[test]
fn vector_count_and_hex_length() {
    let tree = MerkleTree::new(&ids(13));
    assert_eq!(tree.vector_count(), 13);
    assert_eq!(tree.root_hex().len(), 64);
    let empty = MerkleTree::new(&[]);
    assert_eq!(empty.vector_count(), 0);
    assert_eq!(empty.root_hex(), "0".repeat(64));
}

#[test]
fn verify_against_hex_root() {
    let ids: Vec<String> = vec!["vec_1".to_string(), "vec_2".to_string(), "vec_3".to_string()];
    let tree = MerkleTree::new(&ids);
    let proof = tree.generate_proof("vec_2").unwrap();
    let hex = tree.root_hex();
    assert_eq!(verify_merkle_proof(&proof, &hex), Ok(true));
    assert_eq!(verify_merkle_proof(&proof, &hex.to_uppercase()), Ok(true));
    let other = MerkleTree::new(&ids[..2].to_vec()).root_hex();
    assert_eq!(verify_merkle_proof(&proof, &other), Ok(false));
    assert_eq!(verify_merkle_proof(&proof, "abc"), Err("Odd number of digits".to_string()));
    let bad = format!("zz{}", &hex[2..]);
    assert_eq!(
        verify_merkle_proof(&proof, &bad),
        Err("Invalid character 'z' at position 0".to_string())
    );
}

#[test]
fn repeating_the_last_of_an_odd_list_keeps_the_root() {
    // Why distinct roots are promised only for lists of one length.
    let three = MerkleTree::new(&strings(&["a", "b", "c"]));
    let four = MerkleTree::new(&strings(&["a", "b", "c", "c"]));
    assert_eq!(three.root(), four.root());
    let other = MerkleTree::new(&strings(&["a", "b", "d"]));
    assert_ne!(three.root(), other.root());
}

#[test]
fn relabelled_proof_fails() {
    let tree = MerkleTree::new(&ids(2));
    let mut proof = tree.generate_proof("vec_1").unwrap();
    assert!(proof.verify(&tree.root()));
    proof.vector_id = "forged".to_string();
    assert!(!proof.verify(&tree.root()));
}

#[test]
fn merkle_root_of_a_json_id_list() {
    let root = compute_merkle_root("[\"vec_1\", \"vec_2\", \"vec_3\"]").unwrap();
    assert_eq!(root.len(), 64);
    assert_eq!(root, MerkleTree::new(&strings(&["vec_1", "vec_2", "vec_3"])).root_hex());
    assert_ne!(root, "0".repeat(64));
    assert_eq!(compute_merkle_root("[]").unwrap(), "0".repeat(64));
    assert!(compute_merkle_root("[1, 2]").is_err());
    assert!(compute_merkle_root("not json").is_err());
}

#[test]
fn adding_or_removing_an_id_changes_the_root() {
    let three = MerkleTree::new(&strings(&["a", "b", "c"])).root();
    assert_ne!(three, MerkleTree::new(&strings(&["a", "b", "c", "d"])).root());
    assert_ne!(three, MerkleTree::new(&strings(&["a", "c"])).root());
    assert_ne!(three, MerkleTree::new(&strings(&["a", "b"])).root());
}

#[test]
fn removing_the_last_id_changes_the_root() {
    let empty = MerkleTree::new(&strings(&[])).root();
    assert_eq!(empty, [0u8; 32]);
    assert_ne!(empty, MerkleTree::new(&strings(&["a"])).root());
}
