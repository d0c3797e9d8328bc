use toy_merkle_radix_account_trie::mpt::{compact_decode, compact_encode, MptNode};

#[test]
fn branch_starts_empty() {
    let node = MptNode::branch();

    let MptNode::Branch { children, value } = node else {
        panic!("expected branch node");
    };

    assert!(children.iter().all(Option::is_none));
    assert_eq!(value, None);
}

#[test]
fn branch_can_store_value_for_key_that_ends_at_bench() {
    let node = MptNode::branch_with_value(b"account".to_vec());

    let MptNode::Branch { children, value } = node else {
        panic!("expected branch node");
    };

    assert!(children.iter().all(Option::is_none));
    assert_eq!(value, Some(b"account".to_vec()));
}

#[test]
fn leaf_stores_remaining_path_and_value() {
    let node = MptNode::leaf(vec![0x0a, 0x0b, 0x0c], b"value".to_vec());

    assert_eq!(
        node,
        MptNode::Leaf {
            path: vec![0x0a, 0x0b, 0x0c],
            value: b"value".to_vec(),
        }
    );
}

#[test]
fn extension_stores_shared_path_and_child_reference() {
    let child = [0x11u8; 32];
    let node = MptNode::extension(vec![0x01, 0x02], child);

    assert_eq!(
        node,
        MptNode::Extension {
            path: vec![0x01, 0x02],
            child,
        }
    );
}

#[test]
fn compact_encode_extension_even_path() {
    assert_eq!(
        compact_encode(&[0x01, 0x02, 0x03, 0x04], false),
        vec![0x00, 0x12, 0x34]
    );
}

#[test]
fn compact_encode_extension_odd_path() {
    assert_eq!(
        compact_encode(&[0x01, 0x02, 0x03], false),
        vec![0x11, 0x23]
    );
}

#[test]
fn compact_encode_leaf_even_path() {
    assert_eq!(
        compact_encode(&[0x01, 0x02, 0x03, 0x04], true),
        vec![0x20, 0x12, 0x34]
    );
}

#[test]
fn compact_encode_leaf_odd_path() {
    assert_eq!(compact_encode(&[0x01, 0x02, 0x03], true), vec![0x31, 0x23]);
}

#[test]
fn compact_encode_empty_paths() {
    assert_eq!(compact_encode(&[], false), vec![0x00]);
    assert_eq!(compact_encode(&[], true), vec![0x20]);
}

#[test]
fn compact_decode_extension_even_path() {
    assert_eq!(
        compact_decode(&[0x00, 0x12, 0x34]),
        Some((vec![0x01, 0x02, 0x03, 0x04], false))
    );
}

#[test]
fn compact_decode_extension_odd_path() {
    assert_eq!(
        compact_decode(&[0x11, 0x23]),
        Some((vec![0x01, 0x02, 0x03], false))
    );
}

#[test]
fn compact_decode_leaf_even_path() {
    assert_eq!(
        compact_decode(&[0x20, 0x12, 0x34]),
        Some((vec![0x01, 0x02, 0x03, 0x04], true))
    );
}

#[test]
fn compact_decode_leaf_odd_path() {
    assert_eq!(
        compact_decode(&[0x31, 0x23]),
        Some((vec![0x01, 0x02, 0x03], true))
    );
}

#[test]
fn compact_decode_rejects_invalid_inputs() {
    assert_eq!(compact_decode(&[]), None);
    assert_eq!(compact_decode(&[0x40]), None);
    assert_eq!(compact_decode(&[0x01]), None);
}

#[test]
fn compact_encoding_round_trips_paths() {
    let paths = [vec![], vec![0x0f], vec![0x00, 0x01], vec![0x0a, 0x0b, 0x0c]];

    for path in paths {
        assert_eq!(
            compact_decode(&compact_encode(&path, false)),
            Some((path.clone(), false))
        );
        assert_eq!(
            compact_decode(&compact_encode(&path, true)),
            Some((path.clone(), true))
        );
    }
}
