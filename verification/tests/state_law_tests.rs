use toy_merkle_radix_account_trie::account::Account;
use toy_merkle_radix_account_trie::execution::State;

#[test]
fn storage_of_account_without_writes_is_empty() {
    let mut state = State::new();
    let address = [0x11u8; 20];
    state.create_account(address, Account::new_eoa(1, 100));

    assert_eq!(state.get_storage_slot(address, [0x22u8; 32]), None);
    assert_eq!(state.get_storage_slot([0x99u8; 20], [0x22u8; 32]), None);
}

#[test]
fn slots_and_addresses_are_independent() {
    let mut state = State::new();
    let alice = [0x11u8; 20];
    let bob = [0x22u8; 20];
    state.create_account(alice, Account::new_eoa(1, 100));
    state.create_account(bob, Account::new_eoa(2, 200));

    state.set_storage_slot(alice, [0x01u8; 32], b"a1".to_vec()).unwrap();
    state.set_storage_slot(alice, [0x02u8; 32], b"a2".to_vec()).unwrap();
    state.set_storage_slot(bob, [0x01u8; 32], b"b1".to_vec()).unwrap();
    state.set_storage_slot(alice, [0x01u8; 32], b"a3".to_vec()).unwrap();

    assert_eq!(state.get_storage_slot(alice, [0x01u8; 32]), Some(b"a3".to_vec()));
    assert_eq!(state.get_storage_slot(alice, [0x02u8; 32]), Some(b"a2".to_vec()));
    assert_eq!(state.get_storage_slot(bob, [0x01u8; 32]), Some(b"b1".to_vec()));
    assert_eq!(state.get_account(bob), state.get_account(bob));
    assert_eq!(state.get_account(alice).unwrap().nonce, 1);
}

#[test]
fn empty_slot_value_is_stored() {
    let mut state = State::new();
    let address = [0x11u8; 20];
    state.create_account(address, Account::new_eoa(1, 100));
    state.set_storage_slot(address, [0x01u8; 32], Vec::new()).unwrap();

    assert_eq!(state.get_storage_slot(address, [0x01u8; 32]), Some(Vec::new()));
}

#[test]
fn updating_account_with_other_storage_root_drops_storage() {
    let mut state = State::new();
    let address = [0x11u8; 20];
    state.create_account(address, Account::new_eoa(1, 100));
    state.set_storage_slot(address, [0x01u8; 32], b"value".to_vec()).unwrap();

    state.update_account(address, Account::new_eoa(2, 100));

    assert_eq!(state.get_storage_slot(address, [0x01u8; 32]), None);
}

#[test]
fn updating_account_with_same_storage_root_keeps_storage() {
    let mut state = State::new();
    let address = [0x11u8; 20];
    state.create_account(address, Account::new_eoa(1, 100));
    state.set_storage_slot(address, [0x01u8; 32], b"value".to_vec()).unwrap();
    let storage_root = state.get_account(address).unwrap().storage_root;

    state.update_account(address, Account::new_contract(2, 50, storage_root, [0u8; 32]));

    assert_eq!(state.get_storage_slot(address, [0x01u8; 32]), Some(b"value".to_vec()));
    assert_eq!(state.get_account(address).unwrap().balance, 50);
}

#[test]
fn refused_storage_write_leaves_state_unchanged() {
    let mut state = State::new();
    let address = [0x11u8; 20];
    state.create_account(address, Account::new_contract(1, 1, [0x44u8; 32], [0u8; 32]));
    let root = state.root_hash();

    assert!(state.set_storage_slot(address, [0x01u8; 32], b"v".to_vec()).is_err());
    assert!(state.set_storage_slot([0x55u8; 20], [0x01u8; 32], b"v".to_vec()).is_err());
    assert_eq!(state.root_hash(), root);
}

#[test]
fn new_state_root_is_zero_hash() {
    assert_eq!(State::new().root_hash(), [0u8; 32]);
    assert_eq!(Account::empty_storage_root(), [0u8; 32]);
}

#[test]
fn create_and_update_give_the_same_state() {
    let address = [0x11u8; 20];
    let mut created = State::new();
    created.create_account(address, Account::new_eoa(1, 100));
    let mut updated = State::new();
    updated.update_account(address, Account::new_eoa(1, 100));

    assert_eq!(created.root_hash(), updated.root_hash());
    assert_eq!(created.get_account(address), updated.get_account(address));
}

#[test]
fn repeated_slot_write_succeeds_and_keeps_everything() {
    let mut state = State::new();
    let address = [0x11u8; 20];
    state.create_account(address, Account::new_eoa(1, 100));
    assert_eq!(state.set_storage_slot(address, [0x01u8; 32], vec![0x2a]), Ok(()));
    let root = state.root_hash();
    let account = state.get_account(address);

    assert_eq!(state.set_storage_slot(address, [0x01u8; 32], vec![0x2a]), Ok(()));
    assert_eq!(state.root_hash(), root);
    assert_eq!(state.get_account(address), account);
    assert_eq!(state.get_storage_slot(address, [0x01u8; 32]), Some(vec![0x2a]));
}

#[test]
fn rewriting_the_stored_account_keeps_its_slots() {
    let mut state = State::new();
    let address = [0x11u8; 20];
    state.create_account(address, Account::new_eoa(1, 100));
    state.set_storage_slot(address, [0x01u8; 32], vec![0x07]).unwrap();
    let root = state.root_hash();
    let account = state.get_account(address).unwrap();

    state.update_account(address, account.clone());

    assert_eq!(state.root_hash(), root);
    assert_eq!(state.get_account(address), Some(account));
    assert_eq!(state.get_storage_slot(address, [0x01u8; 32]), Some(vec![0x07]));
}

#[test]
fn stored_account_has_a_proof_that_rejects_other_accounts() {
    let mut state = State::new();
    let alice = [0x11u8; 20];
    let account = Account::new_eoa(0, 1_000);
    state.create_account(alice, account.clone());
    let root = state.root_hash();

    let proof = state.prove_account(alice).unwrap();
    assert!(State::verify_account_proof(root, alice, &account, &proof));
    assert!(!State::verify_account_proof(root, alice, &Account::new_eoa(0, 999_999), &proof));
    assert_eq!(State::new().prove_account(alice), None);
    assert_eq!(state.prove_account([0x99u8; 20]), None);
}
