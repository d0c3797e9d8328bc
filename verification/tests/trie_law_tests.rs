use sha3::{Digest, Keccak256};
use toy_merkle_radix_account_trie::account::{Account, AccountTrie};
use toy_merkle_radix_account_trie::execution::State;
use toy_merkle_radix_account_trie::trie::{check_proof, verify_proof, BranchNode, MerkleRadixTrie};

#[test]
fn insert_overwrites_and_keeps_other_keys() {
    let mut trie = MerkleRadixTrie::new();
    trie.insert(b"alice", b"1000".to_vec());
    trie.insert(b"bob", b"2000".to_vec());
    trie.insert(b"alice", b"3000".to_vec());

    assert_eq!(trie.get(b"alice"), Some(b"3000".to_vec()));
    assert_eq!(trie.get(b"bob"), Some(b"2000".to_vec()));
    assert_eq!(trie.get(b"alic"), None);
}

#[test]
fn prefix_keys_keep_both_values() {
    let mut trie = MerkleRadixTrie::new();
    trie.insert(b"\x12", b"short".to_vec());
    trie.insert(b"\x12\x34", b"long".to_vec());

    assert_eq!(trie.get(b"\x12"), Some(b"short".to_vec()));
    assert_eq!(trie.get(b"\x12\x34"), Some(b"long".to_vec()));
    assert_eq!(trie.get(b""), None);
}

#[test]
fn empty_key_is_readable() {
    let mut trie = MerkleRadixTrie::new();
    trie.insert(b"", b"empty".to_vec());
    trie.insert(b"\x00", b"zero".to_vec());

    assert_eq!(trie.get(b""), Some(b"empty".to_vec()));
    assert_eq!(trie.get(b"\x00"), Some(b"zero".to_vec()));
}

#[test]
fn empty_value_reads_as_absent() {
    let mut trie = MerkleRadixTrie::new();
    trie.insert(b"key", Vec::new());

    assert_eq!(trie.get(b"key"), None);
}

#[test]
fn rewriting_a_value_keeps_the_root() {
    let mut trie = MerkleRadixTrie::new();
    trie.insert(b"alice", b"1000".to_vec());
    trie.insert(b"bob", b"2000".to_vec());
    let root = trie.root_hash();

    trie.insert(b"alice", b"1000".to_vec());

    assert_eq!(trie.root_hash(), root);
}

#[test]
fn empty_trie_root_is_zero_hash() {
    assert_eq!(MerkleRadixTrie::new().root_hash(), [0u8; 32]);
}

#[test]
fn root_of_single_value_is_hash_of_encoded_branch() {
    let mut trie = MerkleRadixTrie::new();
    trie.insert(b"", b"v".to_vec());

    let mut encoded = vec![0xd1u8];
    encoded.extend(std::iter::repeat(0x80u8).take(16));
    encoded.push(b'v');
    let expected: [u8; 32] = Keccak256::digest(&encoded).into();

    assert_eq!(trie.root_hash(), expected);
}

#[test]
fn proof_has_one_node_per_nibble_plus_one() {
    let mut trie = MerkleRadixTrie::new();
    trie.insert(b"abc", b"value".to_vec());
    let proof = trie.prove(b"abc").expect("proof should exist");

    assert_eq!(proof.len(), 7);
    assert!(verify_proof(trie.root_hash(), b"abc", b"value", &proof));
    assert!(!verify_proof(trie.root_hash(), b"abc", b"other", &proof));
    assert!(!verify_proof(trie.root_hash(), b"abd", b"value", &proof));
}

#[test]
fn proof_of_a_path_without_value_rejects_every_value() {
    let mut trie = MerkleRadixTrie::new();
    trie.insert(b"\x12\x34", b"long".to_vec());
    let proof = trie.prove(b"\x12").expect("the path exists");

    assert_eq!(trie.get(b"\x12"), None);
    assert!(!verify_proof(trie.root_hash(), b"\x12", b"long", &proof));
}

#[test]
fn proof_of_missing_path_is_none() {
    let mut trie = MerkleRadixTrie::new();
    trie.insert(b"\x12", b"short".to_vec());

    assert_eq!(trie.prove(b"\x34"), None);
    assert_eq!(MerkleRadixTrie::new().prove(b"\x12"), None);
}

#[test]
fn proof_with_wrong_length_is_rejected() {
    let mut trie = MerkleRadixTrie::new();
    trie.insert(b"abc", b"value".to_vec());
    let mut proof = trie.prove(b"abc").expect("proof should exist");
    proof.pop();

    assert_eq!(check_proof(trie.root_hash(), b"abc", b"value", &proof), Some(false));
}

#[test]
fn proof_node_that_is_not_a_branch_is_reported() {
    let node = b"not a branch node".to_vec();
    let root: [u8; 32] = Keccak256::digest(&node).into();

    assert_eq!(check_proof(root, b"", b"value", &[node]), None);
}

#[test]
fn account_proof_check_reports_verdicts() {
    let mut state = State::new();
    let address = [0x11u8; 20];
    let account = Account::new_eoa(1, 100);
    state.create_account(address, account.clone());
    let proof = state.prove_account(address).expect("proof should exist");

    assert_eq!(
        State::check_account_proof(state.root_hash(), address, &account, &proof),
        Some(true)
    );
    assert_eq!(
        State::check_account_proof(state.root_hash(), address, &Account::new_eoa(2, 100), &proof),
        Some(false)
    );
    assert_eq!(
        AccountTrie::check_account_proof([0u8; 32], address, &account, &proof),
        Some(false)
    );
}

#[test]
fn account_trie_keeps_other_accounts() {
    let mut trie = AccountTrie::new();
    let alice = [0x11u8; 20];
    let bob = [0x22u8; 20];
    trie.insert_account(alice, Account::new_eoa(1, 10));
    trie.insert_account(bob, Account::new_eoa(2, 20));
    trie.insert_account(alice, Account::new_eoa(3, 30));

    assert_eq!(trie.get_account(alice), Some(Account::new_eoa(3, 30)));
    assert_eq!(trie.get_account(bob), Some(Account::new_eoa(2, 20)));
    assert_eq!(trie.get_account([0x33u8; 20]), None);
}

#[test]
fn proof_exists_for_stored_key_and_starts_at_the_root() {
    let mut trie = MerkleRadixTrie::new();
    trie.insert(b"abc", b"value".to_vec());
    trie.insert(b"abd", b"other".to_vec());
    let proof = trie.prove(b"abc").unwrap();
    let first: [u8; 32] = Keccak256::digest(&proof[0]).into();

    assert_eq!(proof.len(), 2 * 3 + 1);
    assert_eq!(first, trie.root_hash());
    assert!(verify_proof(trie.root_hash(), b"abc", b"value", &proof));
}

#[test]
fn account_key_is_keccak_of_address() {
    let address = [0x11u8; 20];
    let expected: [u8; 32] = Keccak256::digest(address).into();
    assert_eq!(toy_merkle_radix_account_trie::account::account_key_of(address), expected);
}

#[test]
fn branch_node_round_trips_and_empty_value_reads_as_none() {
    let mut node = BranchNode::new();
    node.children[3] = Some([0xabu8; 32]);
    node.children[15] = Some([0x01u8; 32]);
    node.value = Some(b"payload".to_vec());
    let decoded = BranchNode::decode(&node.encode());
    assert_eq!(decoded.children, node.children);
    assert_eq!(decoded.value, node.value);

    node.value = Some(Vec::new());
    let decoded = BranchNode::decode(&node.encode());
    assert_eq!(decoded.children, node.children);
    assert_eq!(decoded.value, None);
    assert!(BranchNode::try_decode(&[0xc0]).is_none());
}
