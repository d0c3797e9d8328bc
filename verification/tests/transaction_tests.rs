use rlp::{Rlp, RlpStream};
use toy_merkle_radix_account_trie::transaction::{
    encode_ordered_trie_index, receipt_root, transaction_root, Receipt, ReceiptDecodeError,
    Transaction, TransactionDecodeError,
};
use toy_merkle_radix_account_trie::trie::MerkleRadixTrie;

fn sample_transactions() -> Vec<Transaction> {
    vec![
        Transaction::new_transfer([0x11u8; 20], [0x22u8; 20], 0, 100),
        Transaction::new_transfer([0x22u8; 20], [0x33u8; 20], 1, 200),
    ]
}

fn sample_receipts() -> Vec<Receipt> {
    vec![Receipt::success(21_000), Receipt::failure(21_000, "failed")]
}

#[test]
fn ordered_trie_index_encoding_is_deterministic() {
    assert_eq!(encode_ordered_trie_index(7), encode_ordered_trie_index(7));
}

#[test]
fn ordered_trie_index_encoding_distinguishes_positions() {
    assert_ne!(encode_ordered_trie_index(0), encode_ordered_trie_index(1));
    assert_ne!(encode_ordered_trie_index(1), encode_ordered_trie_index(2));
}

#[test]
fn ordered_trie_index_encoding_round_trips_as_rlp_integer() {
    for index in [0usize, 1, 15, 16, 1024] {
        let encoded = encode_ordered_trie_index(index);
        let decoded: u64 = Rlp::new(&encoded).as_val().expect("index should decode");

        assert_eq!(decoded, index as u64);
    }
}

#[test]
fn transfer_transaction_rlp_round_trips() {
    let transaction = Transaction::new_transfer([0x11u8; 20], [0x22u8; 20], 7, 99);

    let decoded =
        Transaction::try_decode(&transaction.encode()).expect("transaction should decode");

    assert_eq!(decoded, transaction);
}

#[test]
fn transaction_decode_rejects_invalid_from_length() {
    let mut stream = RlpStream::new_list(4);
    stream.append(&vec![0x11u8; 19]);
    stream.append(&vec![0x22u8; 20]);
    stream.append(&7u64);
    stream.append(&99u64);

    let result = Transaction::try_decode(&stream.out());

    assert_eq!(result, Err(TransactionDecodeError::InvalidFromLength(19)));
}

#[test]
fn transaction_decode_rejects_invalid_to_length() {
    let mut stream = RlpStream::new_list(4);
    stream.append(&vec![0x11u8; 20]);
    stream.append(&vec![0x22u8; 19]);
    stream.append(&7u64);
    stream.append(&99u64);

    let result = Transaction::try_decode(&stream.out());

    assert_eq!(result, Err(TransactionDecodeError::InvalidToLength(19)));
}

#[test]
fn success_receipt_rlp_round_trips() {
    let receipt = Receipt::success(21_000);

    let decoded = Receipt::try_decode(&receipt.encode()).expect("receipt should decode");

    assert_eq!(decoded, receipt);
}

#[test]
fn failure_receipt_rlp_round_trips() {
    let receipt = Receipt::failure(21_000, "insufficient balance");

    let decoded = Receipt::try_decode(&receipt.encode()).expect("receipt should decode");

    assert_eq!(decoded, receipt);
}

#[test]
fn receipt_decode_rejects_invalid_success_flag() {
    let mut stream = RlpStream::new_list(3);
    stream.append(&2u8);
    stream.append(&21_000u64);
    stream.append(&Vec::<u8>::new());

    let result = Receipt::try_decode(&stream.out());

    assert_eq!(result, Err(ReceiptDecodeError::InvalidSuccessFlag(2)));
}

#[test]
fn receipt_decode_rejects_invalid_error_utf8() {
    let mut stream = RlpStream::new_list(3);
    stream.append(&0u8);
    stream.append(&21_000u64);
    stream.append(&vec![0xff]);

    let result = Receipt::try_decode(&stream.out());

    assert!(matches!(
        result,
        Err(ReceiptDecodeError::InvalidErrorUtf8(_))
    ));
}

#[test]
fn empty_transaction_root_matches_empty_mpt_root() {
    assert_eq!(transaction_root(&[]), MerkleRadixTrie::new().root_hash());
}

#[test]
fn transaction_root_is_deterministic_for_same_ordered_transactions() {
    let transactions = sample_transactions();

    assert_eq!(transaction_root(&transactions), transaction_root(&transactions));
}

#[test]
fn transaction_root_changes_when_transaction_changes() {
    let transactions = sample_transactions();
    let mut changed_transactions = transactions.clone();
    changed_transactions[0].value += 1;

    assert_ne!(transaction_root(&transactions), transaction_root(&changed_transactions))
}

#[test]
fn transaction_root_changes_when_order_changes() {
    let transactions = sample_transactions();
    let mut reordered_transactions = transactions.clone();
    reordered_transactions.swap(0, 1);

    assert_ne!(
        transaction_root(&transactions),
        transaction_root(&reordered_transactions)
    );
}

#[test]
fn empty_receipt_root_matches_empty_mpt_root() {
    assert_eq!(receipt_root(&[]), MerkleRadixTrie::new().root_hash());
}

#[test]
fn receipt_root_is_deterministic_for_same_ordered_receipts() {
    let receipts = sample_receipts();

    assert_eq!(receipt_root(&receipts), receipt_root(&receipts));
}

#[test]
fn receipt_root_changes_when_receipt_changes() {
    let receipts = sample_receipts();
    let mut changed_receipts = receipts.clone();
    changed_receipts[0] = Receipt::failure(21_000, "failed");

    assert_ne!(receipt_root(&receipts), receipt_root(&changed_receipts));
}

#[test]
fn receipt_root_changes_when_order_changes() {
    let receipts = sample_receipts();
    let mut reordered_receipts = receipts.clone();
    reordered_receipts.swap(0, 1);

    assert_ne!(receipt_root(&receipts), receipt_root(&reordered_receipts));
}
