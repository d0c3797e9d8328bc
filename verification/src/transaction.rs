use vstd::prelude::*;

use std::string::FromUtf8Error;

use rlp::DecoderError;

use crate::nibbles::key_path;
use crate::rlp_codec::{
    be_bytes, rlp_append_bytes, rlp_append_empty, rlp_append_u64, rlp_append_u8, rlp_bytes_at, rlp_bytes_at_spec,
    rlp_list_decodes_to, rlp_list_of_strings, rlp_new_list, rlp_new_stream, rlp_out, rlp_payload,
    rlp_stream_items, rlp_string, rlp_u64_at, rlp_u64_at_spec, rlp_u8_at, rlp_u8_at_spec,
    rlp_weight, MAX_ITEM_LEN,
};
use crate::trie::{insert_fresh, insert_step, nonempty, root_or_zero, trie_get, MerkleRadixTrie};
use crate::types::Address;
use vstd::string::StringExecFns;
use vstd::utf8::{decode_utf8, encode_utf8, valid_utf8};

verus! {

#[verifier::external_type_specification]
#[verifier::external_body]
pub struct ExFromUtf8Error(FromUtf8Error);

/// `String::from_utf8`: the string that the bytes encode, or an error where
/// they are not UTF-8.
#[verifier::external_body]
fn string_from_utf8(bytes: Vec<u8>) -> (r: Result<String, FromUtf8Error>)
    ensures
        r is Ok <==> valid_utf8(bytes@),
        r matches Ok(s) ==> s@ == decode_utf8(bytes@),
{
    String::from_utf8(bytes)
}

// ---------------------------------------------------------------------------
// Ordered tries: values keyed by the RLP encoding of their position.
// ---------------------------------------------------------------------------

/// The trie key of the value at position `index`: the RLP encoding of the index.
pub open spec fn index_key(index: nat) -> Seq<u8> {
    rlp_string(be_bytes(index))
}

/// The nodes and root of the trie that holds `values`, each under the key of
/// its position, inserted in order.
pub open spec fn ordered_trie(values: Seq<Seq<u8>>) -> (Map<Seq<u8>, Seq<u8>>, Option<Seq<u8>>)
    decreases values.len(),
{
    if values.len() == 0 {
        (Map::empty(), None)
    } else {
        let prev = ordered_trie(values.drop_last());
        let r = insert_step(prev.0, prev.1, key_path(index_key((values.len() - 1) as nat)), values.last());
        (r.0, Some(r.1))
    }
}

/// Building the ordered trie of `values` meets no Keccak-256 collision.
pub open spec fn ordered_fresh(values: Seq<Seq<u8>>) -> bool
    decreases values.len(),
{
    values.len() > 0 ==> {
        let prev = ordered_trie(values.drop_last());
        &&& ordered_fresh(values.drop_last())
        &&& insert_fresh(prev.0, prev.1, key_path(index_key((values.len() - 1) as nat)), values.last())
    }
}

/// The ordered trie of a list has a root exactly when the list is not empty.
pub proof fn lemma_ordered_trie_root_present(values: Seq<Seq<u8>>)
    ensures
        (ordered_trie(values).1 is Some) == (values.len() > 0),
{
}

/// The root hash of the ordered trie of `values`.
pub open spec fn ordered_root(values: Seq<Seq<u8>>) -> Seq<u8> {
    root_or_zero(ordered_trie(values).1)
}

/// The RLP encoding of a position as a trie key.
pub fn encode_ordered_trie_index(index: usize) -> (key: Vec<u8>)
    ensures
        key@ == index_key(index as nat),
{
    let mut stream = rlp_new_stream();
    rlp_append_u64(&mut stream, index as u64);
    let ghost single = seq![be_bytes(index as nat)];
    proof {
        crate::rlp_codec::lemma_be_bytes_len_u64(index as u64);
    }
    assert(single.last() == be_bytes(index as nat));
    assert(single.drop_last() =~= Seq::<Seq<u8>>::empty());
    assert(rlp_weight(single.drop_last()) == 0);
    assert(rlp_stream_items(stream) =~= single);
    let key = rlp_out(stream);
    assert(rlp_payload(single.drop_last()) == Seq::<u8>::empty());
    assert(rlp_payload(single) =~= rlp_string(be_bytes(index as nat)));
    key
}

/// Different positions below 2^64 have different trie keys.
pub proof fn lemma_index_key_injective(i: nat, j: nat)
    requires
        i < 0x1_0000_0000_0000_0000,
        j < 0x1_0000_0000_0000_0000,
        index_key(i) == index_key(j),
    ensures
        i == j,
{
    crate::rlp_codec::lemma_be_bytes_len_u64(i as u64);
    crate::rlp_codec::lemma_be_bytes_len_u64(j as u64);
    crate::rlp_codec::lemma_rlp_string_injective_short(be_bytes(i), be_bytes(j));
    crate::rlp_codec::lemma_be_bytes_injective(i, j);
}

/// Builds the ordered trie of the values in order and gives its root hash.
fn ordered_trie_root(values: &Vec<Vec<u8>>) -> (root: crate::types::Hash)
    requires
        forall|i: int| 0 <= i < values@.len() ==> #[trigger] values@[i]@.len() <= MAX_ITEM_LEN,
    ensures
        root@ == ordered_root(values.deep_view()),
        ordered_fresh(values.deep_view()) ==> forall|i: int| 0 <= i < values@.len() ==> #[trigger] trie_get(
            ordered_trie(values.deep_view()).0,
            ordered_trie(values.deep_view()).1,
            index_key(i as nat),
        ) == nonempty(values.deep_view()[i]),
{
    let ghost vals = values.deep_view();
    let mut trie = MerkleRadixTrie::new();
    assert(vals.take(0) =~= Seq::<Seq<u8>>::empty());
    for index in 0..values.len()
        invariant
            vals == values.deep_view(),
            forall|i: int| 0 <= i < values@.len() ==> #[trigger] values@[i]@.len() <= MAX_ITEM_LEN,
            trie.wf(),
            trie.nodes() == ordered_trie(vals.take(index as int)).0,
            trie.root_ref() == ordered_trie(vals.take(index as int)).1,
            ordered_fresh(vals.take(index as int)) ==> forall|j: int| 0 <= j < index ==> #[trigger] trie_get(
                trie.nodes(),
                trie.root_ref(),
                index_key(j as nat),
            ) == nonempty(vals[j]),
    {
        let trie_key = encode_ordered_trie_index(index);
        let value = vstd::slice::slice_to_vec(values[index].as_slice());
        assert(value@ == vals[index as int]);
        assert(vals.take(index + 1).drop_last() =~= vals.take(index as int));
        assert(vals.take(index + 1).last() == vals[index as int]);
        let ghost before = trie;
        trie.insert(trie_key.as_slice(), value);
        proof {
            if ordered_fresh(vals.take(index + 1)) {
                assert(ordered_fresh(vals.take(index as int)));
                crate::trie::lemma_insert_then_get(before, trie, index_key(index as nat), vals[index as int]);
                assert forall|j: int| 0 <= j < index + 1 implies #[trigger] trie_get(
                    trie.nodes(),
                    trie.root_ref(),
                    index_key(j as nat),
                ) == nonempty(vals[j]) by {
                    assert(trie.get_spec(index_key(j as nat)) == trie_get(trie.nodes(), trie.root_ref(), index_key(j as nat)));
                    if j < index {
                        if index_key(j as nat) == index_key(index as nat) {
                            lemma_index_key_injective(j as nat, index as nat);
                        }
                        assert(before.get_spec(index_key(j as nat)) == trie_get(before.nodes(), before.root_ref(), index_key(j as nat)));
                    }
                }
            }
        }
    }
    assert(vals.take(values@.len() as int) =~= vals);
    trie.root_hash()
}

// ---------------------------------------------------------------------------
// Transactions.
// ---------------------------------------------------------------------------

/// The mathematical content of a transaction.
pub struct TransactionView {
    pub from: Seq<u8>,
    pub to: Seq<u8>,
    pub nonce: u64,
    pub value: u64,
}

/// A value transfer between two addresses.
#[derive(Debug, Clone, PartialEq, Eq)]
pub struct Transaction {
    pub from: Address,
    pub to: Address,
    pub nonce: u64,
    pub value: u64,
}

impl View for Transaction {
    type V = TransactionView;

    open spec fn view(&self) -> TransactionView {
        TransactionView { from: self.from@, to: self.to@, nonce: self.nonce, value: self.value }
    }
}

/// Why decoding a transaction failed.
#[derive(Debug, PartialEq, Eq)]
pub enum TransactionDecodeError {
    InvalidRlp(DecoderError),
    InvalidFromLength(usize),
    InvalidToLength(usize),
}

/// What decoding a transaction gives.
pub enum TransactionDecoding {
    Decoded(TransactionView),
    InvalidRlp,
    InvalidFromLength(nat),
    InvalidToLength(nat),
}

/// The four RLP fields of a transaction: from, to, nonce, value.
pub open spec fn transaction_fields(t: TransactionView) -> Seq<Seq<u8>> {
    seq![t.from, t.to, be_bytes(t.nonce as nat), be_bytes(t.value as nat)]
}

/// The RLP encoding of a transaction.
pub open spec fn transaction_encoding(t: TransactionView) -> Seq<u8> {
    rlp_list_of_strings(transaction_fields(t))
}

/// What decoding gives from the four decoded fields (`None` for a field
/// that did not decode): the first field that failed, else a check of the
/// address lengths, from first.
pub open spec fn transaction_from_fields(from: Option<Seq<u8>>, to: Option<Seq<u8>>, nonce: Option<u64>, value: Option<u64>) -> TransactionDecoding {
    match (from, to, nonce, value) {
        (Some(from), Some(to), Some(nonce), Some(value)) => if from.len() != 20 {
            TransactionDecoding::InvalidFromLength(from.len())
        } else if to.len() != 20 {
            TransactionDecoding::InvalidToLength(to.len())
        } else {
            TransactionDecoding::Decoded(TransactionView { from, to, nonce, value })
        },
        _ => TransactionDecoding::InvalidRlp,
    }
}

/// What decoding a transaction from these bytes gives.
pub open spec fn transaction_decoding(data: Seq<u8>) -> TransactionDecoding {
    transaction_from_fields(rlp_bytes_at_spec(data, 0), rlp_bytes_at_spec(data, 1), rlp_u64_at_spec(data, 2), rlp_u64_at_spec(data, 3))
}

/// The decoder's result is what the decoding spec gives.
pub open spec fn transaction_result_matches(r: Result<Transaction, TransactionDecodeError>, d: TransactionDecoding) -> bool {
    match r {
        Ok(t) => d == TransactionDecoding::Decoded(t@),
        Err(TransactionDecodeError::InvalidRlp(_)) => d == TransactionDecoding::InvalidRlp,
        Err(TransactionDecodeError::InvalidFromLength(n)) => d == TransactionDecoding::InvalidFromLength(n as nat),
        Err(TransactionDecodeError::InvalidToLength(n)) => d == TransactionDecoding::InvalidToLength(n as nat),
    }
}

/// The view of a decoder result.
pub open spec fn opt_of<T>(r: Result<T, DecoderError>) -> Option<T> {
    match r {
        Ok(v) => Some(v),
        Err(_) => None,
    }
}

/// The view of a decoder result holding bytes.
pub open spec fn opt_bytes_of(r: Result<Vec<u8>, DecoderError>) -> Option<Seq<u8>> {
    match r {
        Ok(v) => Some(v@),
        Err(_) => None,
    }
}

/// Transaction encodings are short.
pub proof fn lemma_transaction_encoding_len(t: TransactionView)
    requires
        t.from.len() == 20,
        t.to.len() == 20,
    ensures
        1 <= transaction_encoding(t).len() <= 105,
        crate::rlp_codec::rlp_fits(transaction_fields(t)),
{
    crate::rlp_codec::lemma_be_bytes_len_u64(t.nonce);
    crate::rlp_codec::lemma_be_bytes_len_u64(t.value);
    let f = transaction_fields(t);
    assert forall|i: int| 0 <= i < f.len() implies #[trigger] f[i].len() <= 20 by {}
    crate::rlp_codec::lemma_rlp_list_len(f, 20);
    crate::rlp_codec::lemma_rlp_weight_bound(f, 20);
}

impl Transaction {
    /// A transfer of `value` from one address to another.
    pub fn new_transfer(from: Address, to: Address, nonce: u64, value: u64) -> (t: Self)
        ensures
            t.from == from,
            t.to == to,
            t.nonce == nonce,
            t.value == value,
    {
        Transaction { from, to, nonce, value }
    }

    /// RLP list of from, to, nonce and value. Decoding the result gives the
    /// transaction back.
    pub fn encode(&self) -> (encoded: Vec<u8>)
        ensures
            encoded@ == transaction_encoding(self@),
            transaction_decoding(encoded@) == TransactionDecoding::Decoded(self@),
    {
        let mut stream = rlp_new_list(4);
        rlp_append_bytes(&mut stream, self.from.as_slice());
        rlp_append_bytes(&mut stream, self.to.as_slice());
        rlp_append_u64(&mut stream, self.nonce);
        rlp_append_u64(&mut stream, self.value);
        assert(rlp_stream_items(stream) =~= transaction_fields(self@));
        proof {
            lemma_transaction_encoding_len(self@);
        }
        let encoded = rlp_out(stream);
        proof {
            let f = transaction_fields(self@);
            assert(rlp_list_decodes_to(encoded@, f));
            assert(rlp_bytes_at_spec(encoded@, 0) == Some(f[0]));
            assert(rlp_bytes_at_spec(encoded@, 1) == Some(f[1]));
            assert(f[2] == be_bytes(self.nonce as nat));
            assert(f[3] == be_bytes(self.value as nat));
            assert(rlp_u64_at_spec(encoded@, 2) == Some(self.nonce));
            assert(rlp_u64_at_spec(encoded@, 3) == Some(self.value));
        }
        encoded
    }

    /// The transaction that the four decoded fields give: the first field
    /// that did not decode is an RLP error; then from and to must be 20 bytes.
    pub fn from_fields(
        from: Result<Vec<u8>, DecoderError>,
        to: Result<Vec<u8>, DecoderError>,
        nonce: Result<u64, DecoderError>,
        value: Result<u64, DecoderError>,
    ) -> (r: Result<Self, TransactionDecodeError>)
        ensures
            transaction_result_matches(r, transaction_from_fields(opt_bytes_of(from), opt_bytes_of(to), opt_of(nonce), opt_of(value))),
    {
        let from_vec = match from {
            Ok(v) => v,
            Err(e) => {
                return Err(TransactionDecodeError::InvalidRlp(e));
            },
        };
        let to_vec = match to {
            Ok(v) => v,
            Err(e) => {
                return Err(TransactionDecodeError::InvalidRlp(e));
            },
        };
        let nonce = match nonce {
            Ok(v) => v,
            Err(e) => {
                return Err(TransactionDecodeError::InvalidRlp(e));
            },
        };
        let value = match value {
            Ok(v) => v,
            Err(e) => {
                return Err(TransactionDecodeError::InvalidRlp(e));
            },
        };
        if from_vec.len() != 20 {
            return Err(TransactionDecodeError::InvalidFromLength(from_vec.len()));
        }
        if to_vec.len() != 20 {
            return Err(TransactionDecodeError::InvalidToLength(to_vec.len()));
        }
        let from = hash20_from_vec(&from_vec);
        let to = hash20_from_vec(&to_vec);
        Ok(Transaction { from, to, nonce, value })
    }

    /// Decodes a transaction.
    pub fn try_decode(bytes: &[u8]) -> (r: Result<Self, TransactionDecodeError>)
        ensures
            transaction_result_matches(r, transaction_decoding(bytes@)),
    {
        let from = rlp_bytes_at(bytes, 0);
        let to = rlp_bytes_at(bytes, 1);
        let nonce = rlp_u64_at(bytes, 2);
        let value = rlp_u64_at(bytes, 3);
        Self::from_fields(from, to, nonce, value)
    }
}

/// Copies a 20-byte vector into an address.
fn hash20_from_vec(v: &Vec<u8>) -> (r: Address)
    requires
        v.len() == 20,
    ensures
        r@ == v@,
{
    let mut a: Address = [0u8; 20];
    let mut i: usize = 0;
    while i < 20
        invariant
            i <= 20,
            v.len() == 20,
            forall|j: int| 0 <= j < i ==> a@[j] == v@[j],
        decreases 20 - i,
    {
        a[i] = v[i];
        i = i + 1;
    }
    assert(a@ =~= v@);
    a
}

/// The encodings of the transactions, in order.
pub open spec fn transaction_encodings(transactions: Seq<Transaction>) -> Seq<Seq<u8>> {
    transactions.map_values(|t: Transaction| transaction_encoding(t@))
}

/// The transaction root: transactions keyed by the RLP encoding of their
/// index, not by a hashed key, since their positions are dense and local to
/// a block. The root is that of this library's radix trie of branch nodes
/// (one branch per nibble), not of a Patricia trie with leaf and extension
/// nodes, so for a non-empty list it is not the Ethereum transactions root.
pub fn transaction_root(transactions: &[Transaction]) -> (root: crate::types::Hash)
    ensures
        root@ == ordered_root(transaction_encodings(transactions@)),
        ordered_fresh(transaction_encodings(transactions@)) ==> forall|i: int| 0 <= i < transactions@.len() ==> #[trigger] trie_get(
            ordered_trie(transaction_encodings(transactions@)).0,
            ordered_trie(transaction_encodings(transactions@)).1,
            index_key(i as nat),
        ) == Some(transaction_encoding(transactions@[i]@)),
{
    let mut encoded: Vec<Vec<u8>> = Vec::new();
    for i in 0..transactions.len()
        invariant
            encoded@.len() == i,
            forall|j: int| 0 <= j < i ==> #[trigger] encoded@[j]@ == transaction_encoding(transactions@[j]@),
            forall|j: int| 0 <= j < i ==> #[trigger] encoded@[j]@.len() <= MAX_ITEM_LEN,
    {
        let e = transactions[i].encode();
        proof {
            lemma_transaction_encoding_len(transactions@[i as int]@);
        }
        encoded.push(e);
    }
    assert forall|j: int| 0 <= j < encoded@.len() implies #[trigger] encoded.deep_view()[j] == transaction_encodings(transactions@)[j] by {
        assert(encoded@[j].deep_view() =~= encoded@[j]@);
    }
    assert(encoded.deep_view() =~= transaction_encodings(transactions@));
    let root = ordered_trie_root(&encoded);
    proof {
        assert forall|i: int| 0 <= i < transactions@.len() implies transaction_encoding(transactions@[i]@).len() > 0 by {
            lemma_transaction_encoding_len(transactions@[i]@);
        }
    }
    root
}


// ---------------------------------------------------------------------------
// Receipts.
// ---------------------------------------------------------------------------

/// The mathematical content of a receipt.
pub struct ReceiptView {
    pub success: bool,
    pub gas_used: u64,
    pub error: Option<Seq<char>>,
}

/// The outcome of executing a transaction.
#[derive(Debug, Clone, PartialEq, Eq)]
pub struct Receipt {
    pub success: bool,
    pub gas_used: u64,
    pub error: Option<String>,
}

impl View for Receipt {
    type V = ReceiptView;

    open spec fn view(&self) -> ReceiptView {
        ReceiptView {
            success: self.success,
            gas_used: self.gas_used,
            error: match &self.error {
                Some(e) => Some(e@),
                None => None,
            },
        }
    }
}

/// Why decoding a receipt failed.
#[derive(Debug, PartialEq, Eq)]
pub enum ReceiptDecodeError {
    InvalidRlp(DecoderError),
    InvalidSuccessFlag(u8),
    InvalidErrorUtf8(FromUtf8Error),
}

/// What decoding a receipt gives.
pub enum ReceiptDecoding {
    Decoded(ReceiptView),
    InvalidRlp,
    InvalidSuccessFlag(u8),
    InvalidErrorUtf8,
}

/// The success flag as a number: 1 for success, 0 for failure.
pub open spec fn success_flag(success: bool) -> u8 {
    if success {
        1
    } else {
        0
    }
}

/// The UTF-8 bytes of the error message; no bytes for no message.
pub open spec fn error_bytes(error: Option<Seq<char>>) -> Seq<u8> {
    match error {
        Some(e) => encode_utf8(e),
        None => Seq::empty(),
    }
}

/// The three RLP fields of a receipt: success flag, gas used, error message.
pub open spec fn receipt_fields(r: ReceiptView) -> Seq<Seq<u8>> {
    seq![be_bytes(success_flag(r.success) as nat), be_bytes(r.gas_used as nat), error_bytes(r.error)]
}

/// The RLP encoding of a receipt.
pub open spec fn receipt_encoding(r: ReceiptView) -> Seq<u8> {
    rlp_list_of_strings(receipt_fields(r))
}

/// The longest error message (in UTF-8 bytes) that a receipt can encode:
/// 2^32 - 8192. The receipt's encoding (the message plus at most 36 bytes
/// for the flag, the gas used and the RLP headers) must stay within
/// `MAX_ITEM_LEN` to be a trie value; the bound is that limit rounded down
/// to a multiple of 4096.
pub const MAX_ERROR_LEN: usize = 0xFFFF_E000;

/// The receipt's error message is short enough to encode.
pub open spec fn receipt_size_ok(r: ReceiptView) -> bool {
    error_bytes(r.error).len() <= MAX_ERROR_LEN
}

/// What decoding gives from the three decoded fields (`None` for a field
/// that did not decode): the first field that failed, else a check of the
/// flag, then of the message's UTF-8; empty message bytes mean no message.
pub open spec fn receipt_from_fields(flag: Option<u8>, gas_used: Option<u64>, error: Option<Seq<u8>>) -> ReceiptDecoding {
    match (flag, gas_used, error) {
        (Some(flag), Some(gas_used), Some(error)) => if flag > 1 {
            ReceiptDecoding::InvalidSuccessFlag(flag)
        } else if error.len() == 0 {
            ReceiptDecoding::Decoded(ReceiptView { success: flag == 1, gas_used, error: None })
        } else if valid_utf8(error) {
            ReceiptDecoding::Decoded(ReceiptView { success: flag == 1, gas_used, error: Some(decode_utf8(error)) })
        } else {
            ReceiptDecoding::InvalidErrorUtf8
        },
        _ => ReceiptDecoding::InvalidRlp,
    }
}

/// What decoding a receipt from these bytes gives.
pub open spec fn receipt_decoding(data: Seq<u8>) -> ReceiptDecoding {
    receipt_from_fields(rlp_u8_at_spec(data, 0), rlp_u64_at_spec(data, 1), rlp_bytes_at_spec(data, 2))
}

/// The decoder's result is what the decoding spec gives.
pub open spec fn receipt_result_matches(r: Result<Receipt, ReceiptDecodeError>, d: ReceiptDecoding) -> bool {
    match r {
        Ok(rc) => d == ReceiptDecoding::Decoded(rc@),
        Err(ReceiptDecodeError::InvalidRlp(_)) => d == ReceiptDecoding::InvalidRlp,
        Err(ReceiptDecodeError::InvalidSuccessFlag(f)) => d == ReceiptDecoding::InvalidSuccessFlag(f),
        Err(ReceiptDecodeError::InvalidErrorUtf8(_)) => d == ReceiptDecoding::InvalidErrorUtf8,
    }
}

/// The receipt that decoding its encoding gives: an empty error message
/// reads as no message.
pub open spec fn normalized_receipt(r: ReceiptView) -> ReceiptView {
    ReceiptView {
        success: r.success,
        gas_used: r.gas_used,
        error: match r.error {
            Some(e) => if e.len() == 0 {
                None
            } else {
                Some(e)
            },
            None => None,
        },
    }
}

/// Receipt encodings fit the RLP stream and a trie value.
pub proof fn lemma_receipt_encoding_len(r: ReceiptView)
    requires
        receipt_size_ok(r),
    ensures
        crate::rlp_codec::rlp_fits(receipt_fields(r)),
        receipt_encoding(r).len() <= MAX_ITEM_LEN,
{
    crate::rlp_codec::lemma_be_bytes_len_u64(success_flag(r.success) as u64);
    crate::rlp_codec::lemma_be_bytes_len_u64(r.gas_used);
    let f = receipt_fields(r);
    let m = error_bytes(r.error).len();
    let f1 = f.drop_last();
    let f0 = f1.drop_last();
    assert(f0.drop_last() =~= Seq::<Seq<u8>>::empty());
    assert(f0.last() == f[0]);
    assert(f1.last() == f[1]);
    assert(f.last() == f[2]);
    crate::rlp_codec::lemma_rlp_string_len(f[0]);
    crate::rlp_codec::lemma_rlp_string_len(f[1]);
    crate::rlp_codec::lemma_rlp_string_len(f[2]);
    assert(rlp_payload(f0) == rlp_payload(f0.drop_last()) + rlp_string(f0.last()));
    assert(rlp_payload(f1) == rlp_payload(f0) + rlp_string(f1.last()));
    assert(rlp_payload(f) == rlp_payload(f1) + rlp_string(f.last()));
    assert(rlp_payload(f).len() <= 8 + 5 + 8 + 5 + m + 5);
    assert(rlp_weight(f0) == rlp_weight(f0.drop_last()) + f[0].len() + 5);
    assert(rlp_weight(f1) == rlp_weight(f0) + f[1].len() + 5);
    assert(rlp_weight(f) == rlp_weight(f1) + f[2].len() + 5);
    crate::rlp_codec::lemma_length_prefix_len(0xc0, rlp_payload(f).len());
}

impl Receipt {
    /// The receipt of a successful transaction.
    pub fn success(gas_used: u64) -> (r: Self)
        ensures
            r@ == (ReceiptView { success: true, gas_used, error: None }),
    {
        Receipt { success: true, gas_used, error: None }
    }

    /// The receipt of a failed transaction, with its error message.
    pub fn failure(gas_used: u64, error: &str) -> (r: Self)
        ensures
            r@ == (ReceiptView { success: false, gas_used, error: Some(error@) }),
    {
        Receipt { success: false, gas_used, error: Some(String::from_str(error)) }
    }

    /// RLP list of the success flag, the gas used and the error message's
    /// bytes (empty for no message). Decoding the result gives the receipt
    /// back, an empty message as no message.
    pub fn encode(&self) -> (encoded: Vec<u8>)
        requires
            receipt_size_ok(self@),
        ensures
            encoded@ == receipt_encoding(self@),
            receipt_decoding(encoded@) == ReceiptDecoding::Decoded(normalized_receipt(self@)),
            self@.error != Some(Seq::<char>::empty()) ==> receipt_decoding(encoded@) == ReceiptDecoding::Decoded(self@),
    {
        let mut stream = rlp_new_list(3);
        let success_flag: u8 = if self.success { 1 } else { 0 };
        rlp_append_u8(&mut stream, success_flag);
        rlp_append_u64(&mut stream, self.gas_used);
        match &self.error {
            Some(error) => {
                rlp_append_bytes(&mut stream, error.as_str().as_bytes());
            },
            None => {
                rlp_append_empty(&mut stream);
            },
        }
        assert(rlp_stream_items(stream) =~= receipt_fields(self@));
        proof {
            lemma_receipt_encoding_len(self@);
        }
        let encoded = rlp_out(stream);
        proof {
            let f = receipt_fields(self@);
            assert(rlp_list_decodes_to(encoded@, f));
            assert(f[0] == be_bytes(success_flag as nat));
            assert(f[1] == be_bytes(self.gas_used as nat));
            assert(rlp_u8_at_spec(encoded@, 0) == Some(success_flag));
            assert(rlp_u64_at_spec(encoded@, 1) == Some(self.gas_used));
            assert(rlp_bytes_at_spec(encoded@, 2) == Some(f[2]));
            if let Some(e) = self@.error {
                vstd::utf8::encode_utf8_valid_utf8(e);
                vstd::utf8::encode_utf8_decode_utf8(e);
                if e.len() == 0 {
                    assert(e =~= Seq::<char>::empty());
                    assert(encode_utf8(e).len() == 0);
                } else {
                    lemma_encode_utf8_nonempty(e);
                }
            }
        }
        encoded
    }

    /// The receipt that the three decoded fields give: the first field that
    /// did not decode is an RLP error; then the flag must be 0 or 1, and a
    /// non-empty message must be UTF-8.
    pub fn from_fields(
        flag: Result<u8, DecoderError>,
        gas_used: Result<u64, DecoderError>,
        error: Result<Vec<u8>, DecoderError>,
    ) -> (r: Result<Self, ReceiptDecodeError>)
        ensures
            receipt_result_matches(r, receipt_from_fields(opt_of(flag), opt_of(gas_used), opt_bytes_of(error))),
    {
        let success_flag = match flag {
            Ok(v) => v,
            Err(e) => {
                return Err(ReceiptDecodeError::InvalidRlp(e));
            },
        };
        let gas_used = match gas_used {
            Ok(v) => v,
            Err(e) => {
                return Err(ReceiptDecodeError::InvalidRlp(e));
            },
        };
        let error_bytes = match error {
            Ok(v) => v,
            Err(e) => {
                return Err(ReceiptDecodeError::InvalidRlp(e));
            },
        };
        let success = match success_flag {
            0 => false,
            1 => true,
            flag => {
                return Err(ReceiptDecodeError::InvalidSuccessFlag(flag));
            },
        };
        let error = if error_bytes.len() == 0 {
            None
        } else {
            match string_from_utf8(error_bytes) {
                Ok(s) => Some(s),
                Err(e) => {
                    return Err(ReceiptDecodeError::InvalidErrorUtf8(e));
                },
            }
        };
        Ok(Receipt { success, gas_used, error })
    }

    /// Decodes a receipt.
    pub fn try_decode(bytes: &[u8]) -> (r: Result<Self, ReceiptDecodeError>)
        ensures
            receipt_result_matches(r, receipt_decoding(bytes@)),
    {
        let flag = rlp_u8_at(bytes, 0);
        let gas_used = rlp_u64_at(bytes, 1);
        let error = rlp_bytes_at(bytes, 2);
        Self::from_fields(flag, gas_used, error)
    }
}

/// The UTF-8 encoding of a non-empty string is not empty.
proof fn lemma_encode_utf8_nonempty(e: Seq<char>)
    requires
        e.len() > 0,
    ensures
        encode_utf8(e).len() > 0,
{
    vstd::utf8::encode_utf8_first_scalar(e);
}

/// The encodings of the receipts, in order.
pub open spec fn receipt_encodings(receipts: Seq<Receipt>) -> Seq<Seq<u8>> {
    receipts.map_values(|r: Receipt| receipt_encoding(r@))
}

/// The receipt root: receipts keyed by the RLP encoding of their index.
/// The root is that of this library's radix trie of branch nodes (one
/// branch per nibble), not of a Patricia trie with leaf and extension
/// nodes, so for a non-empty list it is not the Ethereum receipts root.
pub fn receipt_root(receipts: &[Receipt]) -> (root: crate::types::Hash)
    requires
        forall|i: int| 0 <= i < receipts@.len() ==> #[trigger] receipt_size_ok(receipts@[i]@),
    ensures
        root@ == ordered_root(receipt_encodings(receipts@)),
        ordered_fresh(receipt_encodings(receipts@)) ==> forall|i: int| 0 <= i < receipts@.len() ==> #[trigger] trie_get(
            ordered_trie(receipt_encodings(receipts@)).0,
            ordered_trie(receipt_encodings(receipts@)).1,
            index_key(i as nat),
        ) == Some(receipt_encoding(receipts@[i]@)),
{
    let mut encoded: Vec<Vec<u8>> = Vec::new();
    for i in 0..receipts.len()
        invariant
            forall|i: int| 0 <= i < receipts@.len() ==> #[trigger] receipt_size_ok(receipts@[i]@),
            encoded@.len() == i,
            forall|j: int| 0 <= j < i ==> #[trigger] encoded@[j]@ == receipt_encoding(receipts@[j]@),
            forall|j: int| 0 <= j < i ==> #[trigger] encoded@[j]@.len() <= MAX_ITEM_LEN,
    {
        assert(receipt_size_ok(receipts@[i as int]@));
        let e = receipts[i].encode();
        proof {
            lemma_receipt_encoding_len(receipts@[i as int]@);
        }
        encoded.push(e);
    }
    assert forall|j: int| 0 <= j < encoded@.len() implies #[trigger] encoded.deep_view()[j] == receipt_encodings(receipts@)[j] by {
        assert(encoded@[j].deep_view() =~= encoded@[j]@);
    }
    assert(encoded.deep_view() =~= receipt_encodings(receipts@));
    let root = ordered_trie_root(&encoded);
    proof {
        assert forall|i: int| 0 <= i < receipts@.len() implies receipt_encoding(receipts@[i]@).len() > 0 by {
            let p = rlp_payload(receipt_fields(receipts@[i]@));
            assert(crate::rlp_codec::length_prefix(0xc0, p.len()).len() > 0);
        }
    }
    root
}

/// The transaction root depends only on the transactions, in order: lists
/// that agree transaction by transaction have the same root.
pub proof fn lemma_transaction_root_deterministic(a: Seq<Transaction>, b: Seq<Transaction>)
    requires
        a.len() == b.len(),
        forall|i: int| 0 <= i < a.len() ==> #[trigger] a[i]@ == b[i]@,
    ensures
        ordered_root(transaction_encodings(a)) == ordered_root(transaction_encodings(b)),
{
    assert(transaction_encodings(a) =~= transaction_encodings(b));
}

/// The receipt root depends only on the receipts, in order: lists that
/// agree receipt by receipt have the same root.
pub proof fn lemma_receipt_root_deterministic(a: Seq<Receipt>, b: Seq<Receipt>)
    requires
        a.len() == b.len(),
        forall|i: int| 0 <= i < a.len() ==> #[trigger] a[i]@ == b[i]@,
    ensures
        ordered_root(receipt_encodings(a)) == ordered_root(receipt_encodings(b)),
{
    assert(receipt_encodings(a) =~= receipt_encodings(b));
}

/// A transaction encodes as the RLP list of, in this order, its sender, its
/// recipient, its nonce and its value (both as minimal big-endian integers):
/// the list header followed by the four RLP strings.
pub proof fn lemma_transaction_encoding_layout(t: TransactionView)
    ensures
        transaction_encoding(t) == rlp_list_of_strings(seq![t.from, t.to, be_bytes(t.nonce as nat), be_bytes(t.value as nat)]),
        ({
            let p = rlp_string(t.from) + rlp_string(t.to) + rlp_string(be_bytes(t.nonce as nat)) + rlp_string(be_bytes(t.value as nat));
            transaction_encoding(t) == crate::rlp_codec::length_prefix(0xc0, p.len()) + p
        }),
{
    let f = transaction_fields(t);
    assert(f =~= seq![t.from, t.to, be_bytes(t.nonce as nat), be_bytes(t.value as nat)]);
    let f0 = f.drop_last().drop_last().drop_last();
    assert(f0.drop_last() =~= Seq::<Seq<u8>>::empty());
    assert(f0.last() == t.from);
    assert(rlp_payload(f0.drop_last()) == Seq::<u8>::empty());
    assert(rlp_payload(f0) == rlp_payload(f0.drop_last()) + rlp_string(f0.last()));
    assert(rlp_payload(f0) =~= rlp_string(t.from));
    assert(rlp_payload(f.drop_last().drop_last()) == rlp_payload(f0) + rlp_string(t.to));
    assert(rlp_payload(f.drop_last()) == rlp_payload(f.drop_last().drop_last()) + rlp_string(be_bytes(t.nonce as nat)));
    assert(rlp_payload(f) == rlp_payload(f.drop_last()) + rlp_string(be_bytes(t.value as nat)));
}

/// Decoding a transaction reads the sender from item 0, the recipient from
/// item 1, the nonce from item 2 and the value from item 3 of the RLP list.
pub proof fn lemma_transaction_decoding_fields(data: Seq<u8>)
    ensures
        transaction_decoding(data) matches TransactionDecoding::Decoded(t) ==> rlp_bytes_at_spec(data, 0) == Some(t.from)
            && rlp_bytes_at_spec(data, 1) == Some(t.to)
            && rlp_u64_at_spec(data, 2) == Some(t.nonce)
            && rlp_u64_at_spec(data, 3) == Some(t.value),
        (transaction_decoding(data) is Decoded) == (rlp_bytes_at_spec(data, 0) is Some && rlp_bytes_at_spec(data, 1) is Some
            && rlp_u64_at_spec(data, 2) is Some && rlp_u64_at_spec(data, 3) is Some
            && rlp_bytes_at_spec(data, 0).unwrap().len() == 20 && rlp_bytes_at_spec(data, 1).unwrap().len() == 20),
{
}

/// A receipt encodes as the RLP list of, in this order, its success flag (1
/// or 0), its gas used (a minimal big-endian integer) and the UTF-8 bytes of
/// its error message (no bytes for none): the list header followed by the
/// three RLP strings.
pub proof fn lemma_receipt_encoding_layout(r: ReceiptView)
    ensures
        receipt_encoding(r) == rlp_list_of_strings(seq![be_bytes(if r.success { 1nat } else { 0nat }), be_bytes(r.gas_used as nat), error_bytes(r.error)]),
        error_bytes(r.error) == (match r.error {
            Some(e) => encode_utf8(e),
            None => Seq::<u8>::empty(),
        }),
        ({
            let p = rlp_string(be_bytes(if r.success { 1nat } else { 0nat })) + rlp_string(be_bytes(r.gas_used as nat)) + rlp_string(error_bytes(r.error));
            receipt_encoding(r) == crate::rlp_codec::length_prefix(0xc0, p.len()) + p
        }),
{
    let f = receipt_fields(r);
    assert(f =~= seq![be_bytes(if r.success { 1nat } else { 0nat }), be_bytes(r.gas_used as nat), error_bytes(r.error)]);
    let f0 = f.drop_last().drop_last();
    assert(f0.drop_last() =~= Seq::<Seq<u8>>::empty());
    assert(f0.last() == f[0]);
    assert(rlp_payload(f0.drop_last()) == Seq::<u8>::empty());
    assert(rlp_payload(f0) == rlp_payload(f0.drop_last()) + rlp_string(f0.last()));
    assert(rlp_payload(f0) =~= rlp_string(f[0]));
    assert(rlp_payload(f.drop_last()) == rlp_payload(f0) + rlp_string(f[1]));
    assert(rlp_payload(f) == rlp_payload(f.drop_last()) + rlp_string(f[2]));
}

/// Decoding a receipt reads the success flag from item 0, the gas used from
/// item 1 and the error message from item 2 of the RLP list; a decoded
/// message is the UTF-8 decoding of that item, and an empty item is no message.
pub proof fn lemma_receipt_decoding_fields(data: Seq<u8>)
    ensures
        receipt_decoding(data) matches ReceiptDecoding::Decoded(r) ==> rlp_u8_at_spec(data, 0) == Some(if r.success { 1u8 } else { 0u8 })
            && rlp_u64_at_spec(data, 1) == Some(r.gas_used)
            && rlp_bytes_at_spec(data, 2) is Some
            && r.error == (if rlp_bytes_at_spec(data, 2).unwrap().len() == 0 {
                None
            } else {
                Some(decode_utf8(rlp_bytes_at_spec(data, 2).unwrap()))
            }),
{
}

/// The transactions root is the root of the ordered trie of every
/// transaction's own encoding, in order: one value per transaction, the i-th
/// being the encoding of the i-th transaction.
pub proof fn lemma_transaction_root_values(ts: Seq<Transaction>)
    ensures
        transaction_encodings(ts).len() == ts.len(),
        forall|i: int| 0 <= i < ts.len() ==> #[trigger] transaction_encodings(ts)[i] == rlp_list_of_strings(
            seq![ts[i].from@, ts[i].to@, be_bytes(ts[i].nonce as nat), be_bytes(ts[i].value as nat)],
        ),
{
    assert forall|i: int| 0 <= i < ts.len() implies #[trigger] transaction_encodings(ts)[i] == rlp_list_of_strings(
        seq![ts[i].from@, ts[i].to@, be_bytes(ts[i].nonce as nat), be_bytes(ts[i].value as nat)],
    ) by {
        lemma_transaction_encoding_layout(ts[i]@);
    }
}

/// The receipts root is the root of the ordered trie of every receipt's own
/// encoding, in order, error message included: one value per receipt, the
/// i-th being the encoding of the i-th receipt.
pub proof fn lemma_receipt_root_values(rs: Seq<Receipt>)
    ensures
        receipt_encodings(rs).len() == rs.len(),
        forall|i: int| 0 <= i < rs.len() ==> #[trigger] receipt_encodings(rs)[i] == rlp_list_of_strings(
            seq![be_bytes(if rs[i].success { 1nat } else { 0nat }), be_bytes(rs[i].gas_used as nat), error_bytes(rs[i]@.error)],
        ),
{
    assert forall|i: int| 0 <= i < rs.len() implies #[trigger] receipt_encodings(rs)[i] == rlp_list_of_strings(
        seq![be_bytes(if rs[i].success { 1nat } else { 0nat }), be_bytes(rs[i].gas_used as nat), error_bytes(rs[i]@.error)],
    ) by {
        lemma_receipt_encoding_layout(rs[i]@);
    }
}

} // verus!
