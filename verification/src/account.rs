use vstd::prelude::*;

use crate::hashing::{keccak256, keccak256_spec};
use crate::nibbles::key_path;
use crate::rlp_codec::{
    be_bytes, rlp_append_bytes, rlp_append_u64, rlp_bytes_at, rlp_bytes_at_spec, rlp_fits,
    rlp_list_decodes_to, rlp_list_of_strings, rlp_new_list, rlp_out, rlp_stream_items,
    rlp_u64_at, rlp_u64_at_spec,
};
use crate::trie::{
    check_proof, insert_fresh, insert_step, root_or_zero, trie_prove, values_satisfy,
    verify_proof, verify_spec, MerkleRadixTrie,
};
use crate::types::{hash_from_vec, zero_hash, zero_hash_value, Address};

verus! {

/// The mathematical content of an account.
pub struct AccountView {
    pub nonce: u64,
    pub balance: u64,
    pub storage_root: Seq<u8>,
    pub code_hash: Seq<u8>,
}

/// A minimal Ethereum-like account: the payload stored in the account trie.
#[derive(Debug, Clone, PartialEq, Eq)]
pub struct Account {
    pub nonce: u64,
    pub balance: u64,
    pub storage_root: crate::types::Hash,
    pub code_hash: crate::types::Hash,
}

impl View for Account {
    type V = AccountView;

    open spec fn view(&self) -> AccountView {
        AccountView {
            nonce: self.nonce,
            balance: self.balance,
            storage_root: self.storage_root@,
            code_hash: self.code_hash@,
        }
    }
}

/// The four RLP fields of an account: nonce, balance, storage root, code hash.
pub open spec fn account_fields(a: AccountView) -> Seq<Seq<u8>> {
    seq![be_bytes(a.nonce as nat), be_bytes(a.balance as nat), a.storage_root, a.code_hash]
}

/// The RLP encoding of an account: the list of its four fields.
pub open spec fn account_encoding(a: AccountView) -> Seq<u8> {
    rlp_list_of_strings(account_fields(a))
}

/// Both hashes of the account are 32 bytes long, as those of an `Account` are.
pub open spec fn account_shape_ok(a: AccountView) -> bool {
    a.storage_root.len() == 32 && a.code_hash.len() == 32
}

/// What decoding an account gives: `None` where decoding fails (a field
/// that does not decode, or a hash that is not 32 bytes long).
pub open spec fn decode_account(data: Seq<u8>) -> Option<AccountView> {
    match (rlp_u64_at_spec(data, 0), rlp_u64_at_spec(data, 1), rlp_bytes_at_spec(data, 2), rlp_bytes_at_spec(data, 3)) {
        (Some(nonce), Some(balance), Some(storage_root), Some(code_hash)) => if storage_root.len() == 32 && code_hash.len() == 32 {
            Some(AccountView { nonce, balance, storage_root, code_hash })
        } else {
            None
        },
        _ => None,
    }
}

/// Whatever account these bytes encode, decoding gives it back.
pub open spec fn account_decodes_faithfully(data: Seq<u8>) -> bool {
    forall|a: AccountView| account_shape_ok(a) && #[trigger] account_encoding(a) == data ==> decode_account(data) == Some(a)
}

/// A value of the account trie: bytes that decode to an account and are its encoding.
pub open spec fn account_value_ok(v: Seq<u8>) -> bool {
    &&& account_decodes_faithfully(v)
    &&& decode_account(v) matches Some(a) && account_shape_ok(a) && v == account_encoding(a)
}

proof fn lemma_account_fields_fit(a: AccountView)
    requires
        account_shape_ok(a),
    ensures
        rlp_fits(account_fields(a)),
{
    crate::rlp_codec::lemma_be_bytes_len_u64(a.nonce);
    crate::rlp_codec::lemma_be_bytes_len_u64(a.balance);
    let f = account_fields(a);
    assert forall|i: int| 0 <= i < f.len() implies #[trigger] f[i].len() <= 32 by {}
    crate::rlp_codec::lemma_rlp_weight_bound(f, 32);
}

impl Account {
    /// An externally owned account with empty storage and no code.
    pub fn new_eoa(nonce: u64, balance: u64) -> (account: Self)
        ensures
            account.nonce == nonce,
            account.balance == balance,
            account.storage_root@ == zero_hash(),
            account.code_hash@ == zero_hash(),
    {
        Account { nonce, balance, storage_root: zero_hash_value(), code_hash: zero_hash_value() }
    }

    /// A contract account with the given storage root and code hash.
    pub fn new_contract(nonce: u64, balance: u64, storage_root: crate::types::Hash, code_hash: crate::types::Hash) -> (account: Self)
        ensures
            account.nonce == nonce,
            account.balance == balance,
            account.storage_root == storage_root,
            account.code_hash == code_hash,
    {
        Account { nonce, balance, storage_root, code_hash }
    }

    /// The storage root of an account without storage: the root hash of an empty trie.
    pub fn empty_storage_root() -> (root: crate::types::Hash)
        ensures
            root@ == zero_hash(),
    {
        zero_hash_value()
    }

    /// RLP list of the nonce, the balance, the storage root and the code hash.
    pub fn encode(&self) -> (encoded: Vec<u8>)
        ensures
            encoded@ == account_encoding(self@),
            account_decodes_faithfully(encoded@),
            decode_account(encoded@) == Some(self@),
    {
        let mut stream = rlp_new_list(4);
        rlp_append_u64(&mut stream, self.nonce);
        rlp_append_u64(&mut stream, self.balance);
        rlp_append_bytes(&mut stream, self.storage_root.as_slice());
        rlp_append_bytes(&mut stream, self.code_hash.as_slice());
        assert(rlp_stream_items(stream) =~= account_fields(self@));
        proof {
            lemma_account_fields_fit(self@);
        }
        let encoded = rlp_out(stream);
        proof {
            assert forall|a: AccountView| account_shape_ok(a) && #[trigger] account_encoding(a) == encoded@ implies decode_account(encoded@) == Some(a) by {
                lemma_account_fields_fit(a);
                let f = account_fields(a);
                assert(rlp_list_decodes_to(encoded@, f));
                assert(f[0] == be_bytes(a.nonce as nat));
                assert(f[1] == be_bytes(a.balance as nat));
                assert(rlp_u64_at_spec(encoded@, 0) == Some(a.nonce));
                assert(rlp_u64_at_spec(encoded@, 1) == Some(a.balance));
                assert(rlp_bytes_at_spec(encoded@, 2) == Some(f[2]));
                assert(rlp_bytes_at_spec(encoded@, 3) == Some(f[3]));
            }
            assert(account_shape_ok(self@));
        }
        encoded
    }

    /// Decodes the RLP produced by `encode`; `None` where a field does not
    /// decode or a hash is not 32 bytes long.
    pub fn try_decode(bytes: &[u8]) -> (account: Option<Self>)
        ensures
            match account {
                Some(a) => decode_account(bytes@) == Some(a@),
                None => decode_account(bytes@) is None,
            },
    {
        let nonce = match rlp_u64_at(bytes, 0) {
            Ok(v) => v,
            Err(_) => {
                return None;
            },
        };
        let balance = match rlp_u64_at(bytes, 1) {
            Ok(v) => v,
            Err(_) => {
                return None;
            },
        };
        let storage_root_vec = match rlp_bytes_at(bytes, 2) {
            Ok(v) => v,
            Err(_) => {
                return None;
            },
        };
        let code_hash_vec = match rlp_bytes_at(bytes, 3) {
            Ok(v) => v,
            Err(_) => {
                return None;
            },
        };
        if storage_root_vec.len() != 32 || code_hash_vec.len() != 32 {
            return None;
        }
        let storage_root = hash_from_vec(&storage_root_vec);
        let code_hash = hash_from_vec(&code_hash_vec);
        Some(Account { nonce, balance, storage_root, code_hash })
    }

    /// Decodes the RLP produced by `encode`; only for bytes that decode
    /// (`try_decode` answers `None` for the others).
    pub fn decode(bytes: &[u8]) -> (account: Self)
        requires
            decode_account(bytes@) is Some,
        ensures
            Some(account@) == decode_account(bytes@),
    {
        Self::try_decode(bytes).unwrap()
    }
}


/// Account encodings are short and never empty.
pub proof fn lemma_account_encoding_len(a: AccountView)
    requires
        account_shape_ok(a),
    ensures
        1 <= account_encoding(a).len() <= 153,
{
    crate::rlp_codec::lemma_be_bytes_len_u64(a.nonce);
    crate::rlp_codec::lemma_be_bytes_len_u64(a.balance);
    let f = account_fields(a);
    assert forall|i: int| 0 <= i < f.len() implies #[trigger] f[i].len() <= 32 by {}
    crate::rlp_codec::lemma_rlp_list_len(f, 32);
}

/// The trie key of an account: the hash of its address.
pub open spec fn account_key(address: Seq<u8>) -> Seq<u8> {
    keccak256_spec(address)
}

/// The trie key of an account: Ethereum keys the account trie by
/// keccak256(address), not by the raw address.
pub fn account_key_of(address: Address) -> (key: crate::types::Hash)
    ensures
        key@ == account_key(address@),
{
    keccak256(address.as_slice())
}

/// What every value of the account trie satisfies.
pub open spec fn account_value_pred() -> spec_fn(Seq<u8>) -> bool {
    |v: Seq<u8>| account_value_ok(v)
}

/// A trie of accounts keyed by the hashes of their addresses.
#[derive(Clone)]
pub struct AccountTrie {
    trie: MerkleRadixTrie,
}

impl AccountTrie {
    /// The underlying trie.
    pub closed spec fn inner(&self) -> MerkleRadixTrie {
        self.trie
    }

    /// The trie is well formed and all its values are account encodings.
    pub open spec fn wf(&self) -> bool {
        &&& self.inner().wf()
        &&& values_satisfy(self.inner().nodes(), account_value_pred())
    }

    /// The account stored for an address.
    pub open spec fn account_of(&self, address: Seq<u8>) -> Option<AccountView> {
        match self.inner().get_spec(account_key(address)) {
            Some(v) => decode_account(v),
            None => None,
        }
    }

    /// The root hash.
    pub open spec fn root_spec(&self) -> Seq<u8> {
        root_or_zero(self.inner().root_ref())
    }

    /// An empty account trie.
    pub fn new() -> (t: Self)
        ensures
            t.wf(),
            t.inner().nodes() == Map::<Seq<u8>, Seq<u8>>::empty(),
            t.inner().root_ref() is None,
    {
        AccountTrie { trie: MerkleRadixTrie::new() }
    }

    /// The root hash of the account trie.
    pub fn root_hash(&self) -> (hash: crate::types::Hash)
        ensures
            hash@ == self.root_spec(),
    {
        self.trie.root_hash()
    }

    /// Stores an account under the hash of its address (Ethereum keys the
    /// account trie by keccak256(address), not by the raw address).
    pub fn insert_account(&mut self, address: Address, account: Account)
        requires
            old(self).wf(),
        ensures
            final(self).wf(),
            final(self).inner().nodes() == insert_step(old(self).inner().nodes(), old(self).inner().root_ref(), key_path(account_key(address@)), account_encoding(account@)).0,
            final(self).inner().root_ref() == Some(insert_step(old(self).inner().nodes(), old(self).inner().root_ref(), key_path(account_key(address@)), account_encoding(account@)).1),
            account_key(address@).len() == 32,
    {
        let account_key = account_key_of(address);
        let encoded_account = account.encode();
        proof {
            lemma_account_encoding_len(account@);
        }
        self.trie.insert(account_key.as_slice(), encoded_account);
        assert(values_satisfy(self.trie.nodes(), account_value_pred()));
    }

    /// Loads the account bytes from the trie and decodes them.
    pub fn get_account(&self, address: Address) -> (account: Option<Account>)
        requires
            self.wf(),
        ensures
            match account {
                Some(a) => self.account_of(address@) == Some(a@),
                None => self.account_of(address@) is None,
            },
    {
        let account_key = account_key_of(address);
        proof {
            crate::trie::lemma_get_value_satisfies(self.trie, account_key@, account_value_pred());
        }
        match self.trie.get(account_key.as_slice()) {
            Some(encoded_account) => {
                assert(account_value_ok(encoded_account@));
                Some(Account::decode(encoded_account.as_slice()))
            },
            None => None,
        }
    }

    /// The proof for an account, built under the hashed account key.
    pub fn prove_account(&self, address: Address) -> (nodes_on_path: Option<Vec<Vec<u8>>>)
        requires
            self.wf(),
        ensures
            match nodes_on_path {
                Some(p) => trie_prove(self.inner().nodes(), self.inner().root_ref(), account_key(address@)) == Some(p.deep_view()),
                None => trie_prove(self.inner().nodes(), self.inner().root_ref(), account_key(address@)) is None,
            },
            account_key(address@).len() == 32,
    {
        let account_key = account_key_of(address);
        self.trie.prove(account_key.as_slice())
    }

    /// Checks an account proof: rebuilds the account key and the encoded
    /// account, then checks the trie proof; `None` where a proof node that
    /// matches its hash is not a branch node.
    pub fn check_account_proof(root: crate::types::Hash, address: Address, account: &Account, proof_nodes: &[Vec<u8>]) -> (verdict: Option<bool>)
        ensures
            verdict == verify_spec(root@, account_key(address@), account_encoding(account@), proof_nodes.deep_view()),
    {
        let account_key = account_key_of(address);
        let encoded_account = account.encode();
        check_proof(root, account_key.as_slice(), encoded_account.as_slice(), proof_nodes)
    }

    /// Verifies an account proof: rebuilds the account key and the encoded
    /// account, then verifies the trie proof. Only for proofs in which every
    /// node that matches its hash is a branch node (`check_account_proof`
    /// answers `None` for the others).
    pub fn verify_account_proof(root: crate::types::Hash, address: Address, account: &Account, proof_nodes: &[Vec<u8>]) -> (valid: bool)
        requires
            verify_spec(root@, account_key(address@), account_encoding(account@), proof_nodes.deep_view()) is Some,
        ensures
            Some(valid) == verify_spec(root@, account_key(address@), account_encoding(account@), proof_nodes.deep_view()),
    {
        let account_key = account_key_of(address);
        let encoded_account = account.encode();
        verify_proof(root, account_key.as_slice(), encoded_account.as_slice(), proof_nodes)
    }
}

/// Reading after a write: once an account is stored for an address (meeting
/// no Keccak-256 collision), the address reads that account, and every
/// address with another key reads what it read before.
pub proof fn lemma_insert_account_then_get(t: AccountTrie, t2: AccountTrie, address: Seq<u8>, account: AccountView)
    requires
        t.wf(),
        t2.wf(),
        account_shape_ok(account),
        t2.inner().nodes() == insert_step(t.inner().nodes(), t.inner().root_ref(), key_path(account_key(address)), account_encoding(account)).0,
        t2.inner().root_ref() == Some(insert_step(t.inner().nodes(), t.inner().root_ref(), key_path(account_key(address)), account_encoding(account)).1),
        insert_fresh(t.inner().nodes(), t.inner().root_ref(), key_path(account_key(address)), account_encoding(account)),
    ensures
        t2.account_of(address) == Some(account),
        forall|other: Seq<u8>| account_key(other) != account_key(address) ==> #[trigger] t2.account_of(other) == t.account_of(other),
{
    let enc = account_encoding(account);
    lemma_account_encoding_len(account);
    crate::trie::lemma_insert_then_get(t.inner(), t2.inner(), account_key(address), enc);
    assert(t2.inner().get_spec(account_key(address)) == Some(enc));
    crate::trie::lemma_get_value_satisfies(t2.inner(), account_key(address), account_value_pred());
    assert(account_value_ok(enc));
    assert forall|other: Seq<u8>| account_key(other) != account_key(address) implies #[trigger] t2.account_of(other) == t.account_of(other) by {
        assert(t2.inner().get_spec(account_key(other)) == t.inner().get_spec(account_key(other)));
    }
}

/// Storing the account that an address already holds leaves the account
/// trie as it was: the same nodes and the same root hash.
pub proof fn lemma_rewrite_account_keeps_trie(t: AccountTrie, address: Seq<u8>, account: AccountView)
    requires
        t.wf(),
        t.account_of(address) == Some(account),
    ensures
        insert_step(t.inner().nodes(), t.inner().root_ref(), key_path(account_key(address)), account_encoding(account)) == (t.inner().nodes(), t.inner().root_ref().unwrap()),
{
    crate::trie::lemma_get_value_satisfies(t.inner(), account_key(address), account_value_pred());
    let v = t.inner().get_spec(account_key(address)).unwrap();
    assert(account_value_ok(v));
    crate::trie::lemma_rewrite_keeps_trie(t.inner(), account_key(address), account_encoding(account));
}

/// Inclusion proofs of accounts: an address that holds `account` has a
/// proof, and that proof verifies against the root hash for `account` and
/// for no other account.
pub proof fn lemma_prove_account_then_verify(t: AccountTrie, address: Seq<u8>, account: AccountView)
    requires
        t.wf(),
        t.account_of(address) == Some(account),
    ensures
        trie_prove(t.inner().nodes(), t.inner().root_ref(), account_key(address)) matches Some(p)
            && verify_spec(t.root_spec(), account_key(address), account_encoding(account), p) == Some(true)
            && forall|other: AccountView| account_shape_ok(other) && other != account
                ==> #[trigger] verify_spec(t.root_spec(), account_key(address), account_encoding(other), p) == Some(false),
{
    let key = account_key(address);
    crate::trie::lemma_get_value_satisfies(t.inner(), key, account_value_pred());
    let v = t.inner().get_spec(key).unwrap();
    assert(account_value_ok(v));
    assert(v == account_encoding(account));
    crate::trie::lemma_prove_then_verify(t.inner(), key, account_encoding(account));
    let p = trie_prove(t.inner().nodes(), t.inner().root_ref(), key).unwrap();
    assert forall|other: AccountView| account_shape_ok(other) && other != account
        implies #[trigger] verify_spec(t.root_spec(), key, account_encoding(other), p) == Some(false) by {
        crate::trie::lemma_prove_then_verify(t.inner(), key, account_encoding(other));
        if account_encoding(other) == v {
            assert(account_decodes_faithfully(v));
            assert(decode_account(v) == Some(other));
        }
    }
}

/// An account encodes as the RLP list of, in this order, its nonce and its
/// balance (as minimal big-endian integers), its storage root and its code
/// hash. With 32-byte hashes the encoding ends with 0xa0, the storage root,
/// 0xa0, the code hash.
pub proof fn lemma_account_encoding_layout(a: AccountView)
    ensures
        account_encoding(a) == rlp_list_of_strings(seq![be_bytes(a.nonce as nat), be_bytes(a.balance as nat), a.storage_root, a.code_hash]),
        account_shape_ok(a) ==> account_encoding(a).len() >= 66 && account_encoding(a).subrange(account_encoding(a).len() - 66, account_encoding(a).len() as int)
            == seq![0xa0u8] + a.storage_root + seq![0xa0u8] + a.code_hash,
{
    let f = account_fields(a);
    assert(f =~= seq![be_bytes(a.nonce as nat), be_bytes(a.balance as nat), a.storage_root, a.code_hash]);
    if account_shape_ok(a) {
        let f2 = f.drop_last().drop_last();
        let p2 = crate::rlp_codec::rlp_payload(f2);
        assert(f.drop_last().drop_last() == f2);
        assert(f.last() == a.code_hash);
        assert(f.drop_last().last() == a.storage_root);
        let rs = crate::rlp_codec::rlp_string(a.storage_root);
        let rc = crate::rlp_codec::rlp_string(a.code_hash);
        assert(rs =~= seq![0xa0u8] + a.storage_root);
        assert(rc =~= seq![0xa0u8] + a.code_hash);
        assert(crate::rlp_codec::rlp_payload(f.drop_last()) == p2 + rs);
        assert(crate::rlp_codec::rlp_payload(f) == p2 + rs + rc);
        let p = crate::rlp_codec::rlp_payload(f);
        let pre = crate::rlp_codec::length_prefix(0xc0, p.len());
        let e = account_encoding(a);
        assert(e == pre + (p2 + rs + rc));
        assert(e.subrange(e.len() - 66, e.len() as int) =~= rs + rc);
    }
}

/// Decoding an account reads the nonce from item 0, the balance from item 1,
/// the storage root from item 2 and the code hash from item 3 of the RLP
/// list, and succeeds exactly when all four decode and both hashes are 32
/// bytes long.
pub proof fn lemma_account_decoding_fields(data: Seq<u8>)
    ensures
        decode_account(data) matches Some(a) ==> rlp_u64_at_spec(data, 0) == Some(a.nonce)
            && rlp_u64_at_spec(data, 1) == Some(a.balance)
            && rlp_bytes_at_spec(data, 2) == Some(a.storage_root)
            && rlp_bytes_at_spec(data, 3) == Some(a.code_hash),
        (decode_account(data) is Some) == (rlp_u64_at_spec(data, 0) is Some && rlp_u64_at_spec(data, 1) is Some
            && rlp_bytes_at_spec(data, 2) is Some && rlp_bytes_at_spec(data, 2).unwrap().len() == 32
            && rlp_bytes_at_spec(data, 3) is Some && rlp_bytes_at_spec(data, 3).unwrap().len() == 32),
{
}

} // verus!
