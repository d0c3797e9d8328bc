use rlp::DecoderError;
use toy_merkle_radix_account_trie::account::Account;
use toy_merkle_radix_account_trie::mpt::{compact_decode, compact_encode};
use toy_merkle_radix_account_trie::nibbles::{bytes_to_nibbles, pack_nibbles, unpack_nibbles};
use toy_merkle_radix_account_trie::transaction::{
    encode_ordered_trie_index, Receipt, ReceiptDecodeError, Transaction, TransactionDecodeError,
};

#[test]
fn ordered_trie_index_has_rlp_integer_bytes() {
    assert_eq!(encode_ordered_trie_index(0), vec![0x80]);
    assert_eq!(encode_ordered_trie_index(15), vec![0x0f]);
    assert_eq!(encode_ordered_trie_index(127), vec![0x7f]);
    assert_eq!(encode_ordered_trie_index(128), vec![0x81, 0x80]);
    assert_eq!(encode_ordered_trie_index(1024), vec![0x82, 0x04, 0x00]);
}

#[test]
fn ordered_trie_indexes_are_distinct() {
    let keys: Vec<Vec<u8>> = (0..600usize).map(encode_ordered_trie_index).collect();
    for i in 0..keys.len() {
        for j in (i + 1)..keys.len() {
            assert_ne!(keys[i], keys[j]);
        }
    }
}

#[test]
fn account_encoding_has_expected_bytes() {
    let encoded = Account::new_eoa(1, 1000).encode();

    assert_eq!(encoded.len(), 72);
    assert_eq!(&encoded[..6], &[0xf8, 0x46, 0x01, 0x82, 0x03, 0xe8]);
    assert_eq!(encoded[6], 0xa0);
    assert_eq!(encoded[39], 0xa0);
}

#[test]
fn account_decode_rejects_other_bytes() {
    assert_eq!(Account::try_decode(&[]), None);
    assert_eq!(Account::try_decode(&[0xc1, 0x01]), None);
    let contract = Account::new_contract(7, 99, [0x44u8; 32], [0x33u8; 32]);
    assert_eq!(Account::try_decode(&contract.encode()), Some(contract));
}

#[test]
fn transaction_decode_rejects_malformed_rlp() {
    assert!(matches!(
        Transaction::try_decode(&[]),
        Err(TransactionDecodeError::InvalidRlp(_))
    ));
    assert!(matches!(
        Transaction::try_decode(&[0xc1, 0x80]),
        Err(TransactionDecodeError::InvalidRlp(_))
    ));
}

#[test]
fn transaction_from_fields_reports_first_failure() {
    let ok = Transaction::from_fields(Ok(vec![1u8; 20]), Ok(vec![2u8; 20]), Ok(3), Ok(4));
    assert_eq!(ok, Ok(Transaction::new_transfer([1u8; 20], [2u8; 20], 3, 4)));

    let bad = Transaction::from_fields(
        Ok(vec![1u8; 19]),
        Err(DecoderError::RlpIsTooShort),
        Ok(3),
        Ok(4),
    );
    assert_eq!(bad, Err(TransactionDecodeError::InvalidRlp(DecoderError::RlpIsTooShort)));

    let short = Transaction::from_fields(Ok(vec![1u8; 21]), Ok(vec![2u8; 3]), Ok(3), Ok(4));
    assert_eq!(short, Err(TransactionDecodeError::InvalidFromLength(21)));
}

#[test]
fn receipt_encoding_has_expected_bytes() {
    assert_eq!(Receipt::success(0).encode(), vec![0xc3, 0x01, 0x80, 0x80]);
    assert_eq!(
        Receipt::failure(5, "no").encode(),
        vec![0xc5, 0x80, 0x05, 0x82, b'n', b'o']
    );
}

#[test]
fn receipt_with_empty_message_decodes_without_message() {
    let receipt = Receipt::failure(21_000, "");
    let decoded = Receipt::try_decode(&receipt.encode()).expect("receipt should decode");

    assert_eq!(decoded.error, None);
    assert!(!decoded.success);
    assert_eq!(decoded.gas_used, 21_000);
}

#[test]
fn receipt_with_unicode_message_round_trips() {
    let receipt = Receipt::failure(1, "gas épuisé ⛽");
    assert_eq!(Receipt::try_decode(&receipt.encode()), Ok(receipt));
}

#[test]
fn receipt_from_fields_reports_failures() {
    assert_eq!(
        Receipt::from_fields(Ok(3), Ok(1), Ok(Vec::new())),
        Err(ReceiptDecodeError::InvalidSuccessFlag(3))
    );
    assert_eq!(
        Receipt::from_fields(Ok(1), Err(DecoderError::RlpExpectedToBeData), Ok(Vec::new())),
        Err(ReceiptDecodeError::InvalidRlp(DecoderError::RlpExpectedToBeData))
    );
    assert_eq!(Receipt::from_fields(Ok(1), Ok(7), Ok(Vec::new())), Ok(Receipt::success(7)));
    assert!(matches!(
        Receipt::try_decode(&[0x00]),
        Err(ReceiptDecodeError::InvalidRlp(_))
    ));
}

#[test]
fn nibbles_split_and_pack() {
    assert_eq!(bytes_to_nibbles(&[0xab, 0x01]), vec![0x0a, 0x0b, 0x00, 0x01]);
    assert_eq!(unpack_nibbles(&[0xab, 0x01]), vec![0x0a, 0x0b, 0x00, 0x01]);
    assert_eq!(pack_nibbles(&[0x0a, 0x0b, 0x00, 0x01]), vec![0xab, 0x01]);
}

#[test]
fn compact_encoding_round_trips_every_short_path() {
    for len in 0..4usize {
        let count = 16usize.pow(len as u32);
        for n in 0..count {
            let path: Vec<u8> = (0..len).map(|i| ((n >> (4 * i)) & 0x0f) as u8).collect();
            for is_leaf in [false, true] {
                assert_eq!(
                    compact_decode(&compact_encode(&path, is_leaf)),
                    Some((path.clone(), is_leaf))
                );
            }
        }
    }
}

#[test]
fn compact_decode_rejects_odd_flag_padding() {
    assert_eq!(compact_decode(&[0x21]), None);
    assert_eq!(compact_decode(&[0x50, 0x00]), None);
    assert_eq!(compact_decode(&[0x00]), Some((vec![], false)));
}
