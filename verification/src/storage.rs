use vstd::prelude::*;

use crate::hashing::{keccak256, keccak256_spec};
use crate::nibbles::key_path;
use crate::rlp_codec::{
    rlp_append_bytes, rlp_decode_bytes, rlp_decode_bytes_spec, rlp_new_stream, rlp_out,
    rlp_payload, rlp_stream_items, rlp_string, rlp_weight, MAX_ITEM_LEN,
};
use crate::trie::{db_wf, insert_fresh, insert_step, root_or_zero, trie_get, values_satisfy, MerkleRadixTrie};
use crate::types::{opt_bytes, StorageKey, StorageValue};

verus! {

/// The longest storage value: 2^32 - 8192. Its RLP encoding adds at most
/// 5 bytes and must stay within `MAX_ITEM_LEN`, so the exact limit is
/// `MAX_ITEM_LEN - 5`; the bound is that limit rounded down to a multiple
/// of 4096.
pub const MAX_STORAGE_VALUE_LEN: usize = 0xFFFF_E000;

/// A stored slot value: the RLP encoding of a byte string, which decodes back to it.
pub open spec fn storage_value_ok(e: Seq<u8>) -> bool {
    &&& rlp_decode_bytes_spec(e) matches Some(b) && e == rlp_string(b) && b.len() <= MAX_STORAGE_VALUE_LEN
    &&& forall|b: Seq<u8>| #[trigger] rlp_string(b) == e && b.len() <= MAX_ITEM_LEN ==> rlp_decode_bytes_spec(e) == Some(b)
}

/// What every value of a storage trie satisfies.
pub open spec fn storage_value_pred() -> spec_fn(Seq<u8>) -> bool {
    |e: Seq<u8>| storage_value_ok(e)
}

/// The trie key of a storage slot: the hash of the slot key.
pub open spec fn slot_trie_key(slot_key: Seq<u8>) -> Seq<u8> {
    keccak256_spec(slot_key)
}

/// Encodes a slot value as a single RLP byte string.
fn encode_storage_value(value: &[u8]) -> (encoded: Vec<u8>)
    requires
        value@.len() <= MAX_STORAGE_VALUE_LEN,
    ensures
        encoded@ == rlp_string(value@),
        storage_value_ok(encoded@),
        encoded@.len() <= MAX_ITEM_LEN,
{
    let mut stream = rlp_new_stream();
    rlp_append_bytes(&mut stream, value);
    assert(rlp_stream_items(stream) =~= seq![value@]);
    let ghost single = seq![value@];
    assert(single.last() == value@);
    assert(single.drop_last() =~= Seq::<Seq<u8>>::empty());
    assert(rlp_weight(single.drop_last()) == 0);
    assert(rlp_weight(single) == value@.len() + 5);
    let encoded = rlp_out(stream);
    assert(rlp_payload(single.drop_last()) == Seq::<u8>::empty());
    assert(rlp_payload(single) =~= rlp_string(value@));
    proof {
        crate::rlp_codec::lemma_rlp_string_len(value@);
        assert(rlp_decode_bytes_spec(encoded@) == Some(value@));
    }
    encoded
}

/// The storage of one account: a trie of slot values keyed by the hashes of the slot keys.
#[derive(Clone)]
pub struct StorageTrie {
    trie: MerkleRadixTrie,
}

impl StorageTrie {
    /// The underlying trie.
    pub closed spec fn inner(&self) -> MerkleRadixTrie {
        self.trie
    }

    /// The trie is well formed and all its values are encoded slot values.
    pub open spec fn wf(&self) -> bool {
        &&& self.inner().wf()
        &&& values_satisfy(self.inner().nodes(), storage_value_pred())
    }

    /// The value of a slot.
    pub open spec fn slot_of(&self, slot_key: Seq<u8>) -> Option<Seq<u8>> {
        match self.inner().get_spec(slot_trie_key(slot_key)) {
            Some(e) => rlp_decode_bytes_spec(e),
            None => None,
        }
    }

    /// The root hash.
    pub open spec fn root_spec(&self) -> Seq<u8> {
        root_or_zero(self.inner().root_ref())
    }

    /// An empty storage trie.
    pub fn new() -> (t: Self)
        ensures
            t.wf(),
            t.inner().nodes() == Map::<Seq<u8>, Seq<u8>>::empty(),
            t.inner().root_ref() is None,
    {
        StorageTrie { trie: MerkleRadixTrie::new() }
    }

    /// The root hash of the storage trie.
    pub fn root_hash(&self) -> (hash: crate::types::Hash)
        ensures
            hash@ == self.root_spec(),
    {
        self.trie.root_hash()
    }

    /// The value of a slot, if it was set.
    pub fn get_slot(&self, slot_key: StorageKey) -> (value: Option<StorageValue>)
        requires
            self.wf(),
        ensures
            opt_bytes(value) == self.slot_of(slot_key@),
    {
        let key = keccak256(slot_key.as_slice());
        match self.trie.get(key.as_slice()) {
            Some(encoded) => match rlp_decode_bytes(encoded.as_slice()) {
                Ok(value) => Some(value),
                Err(_) => None,
            },
            None => None,
        }
    }

    /// Sets a slot to a value, stored RLP-encoded under the hash of the slot key.
    pub fn set_slot(&mut self, slot_key: StorageKey, value: StorageValue)
        requires
            old(self).wf(),
            value@.len() <= MAX_STORAGE_VALUE_LEN,
        ensures
            final(self).wf(),
            final(self).inner().nodes() == insert_step(old(self).inner().nodes(), old(self).inner().root_ref(), key_path(slot_trie_key(slot_key@)), rlp_string(value@)).0,
            final(self).inner().root_ref() == Some(insert_step(old(self).inner().nodes(), old(self).inner().root_ref(), key_path(slot_trie_key(slot_key@)), rlp_string(value@)).1),
    {
        let key = keccak256(slot_key.as_slice());
        let encoded = encode_storage_value(value.as_slice());
        self.trie.insert(key.as_slice(), encoded);
        assert(values_satisfy(self.trie.nodes(), storage_value_pred()));
    }
}

/// The value of a slot in the storage trie with these nodes and root.
pub open spec fn slot_in(db: Map<Seq<u8>, Seq<u8>>, root: Option<Seq<u8>>, slot_key: Seq<u8>) -> Option<Seq<u8>> {
    match trie_get(db, root, slot_trie_key(slot_key)) {
        Some(e) => rlp_decode_bytes_spec(e),
        None => None,
    }
}

/// Reading after a write: once a slot is set in a storage trie with these
/// nodes and root (meeting no Keccak-256 collision), the slot reads the
/// value, and every slot with another trie key reads what it read before.
pub proof fn lemma_set_slot_then_get(db: Map<Seq<u8>, Seq<u8>>, root: Option<Seq<u8>>, t2: StorageTrie, slot_key: Seq<u8>, value: Seq<u8>)
    requires
        db_wf(db),
        root matches Some(r) ==> db.contains_key(r),
        t2.wf(),
        value.len() <= MAX_STORAGE_VALUE_LEN,
        t2.inner().nodes() == insert_step(db, root, key_path(slot_trie_key(slot_key)), rlp_string(value)).0,
        t2.inner().root_ref() == Some(insert_step(db, root, key_path(slot_trie_key(slot_key)), rlp_string(value)).1),
        insert_fresh(db, root, key_path(slot_trie_key(slot_key)), rlp_string(value)),
    ensures
        t2.slot_of(slot_key) == Some(value),
        forall|other: Seq<u8>| slot_trie_key(other) != slot_trie_key(slot_key) ==> #[trigger] t2.slot_of(other) == slot_in(db, root, other),
{
    let enc = rlp_string(value);
    crate::rlp_codec::lemma_rlp_string_len(value);
    crate::rlp_codec::lemma_length_prefix_len(0x80, value.len());
    assert(enc.len() > 0);
    crate::trie::lemma_trie_wf_nodes(t2.inner());
    crate::trie::lemma_insert_then_lookup(db, root, t2.inner().nodes(), slot_trie_key(slot_key), enc);
    assert(t2.inner().get_spec(slot_trie_key(slot_key)) == trie_get(t2.inner().nodes(), t2.inner().root_ref(), slot_trie_key(slot_key)));
    assert(t2.inner().get_spec(slot_trie_key(slot_key)) == Some(enc));
    crate::trie::lemma_get_value_satisfies(t2.inner(), slot_trie_key(slot_key), storage_value_pred());
    assert(storage_value_ok(enc));
    assert forall|other: Seq<u8>| slot_trie_key(other) != slot_trie_key(slot_key) implies #[trigger] t2.slot_of(other) == slot_in(db, root, other) by {
        assert(t2.inner().get_spec(slot_trie_key(other)) == trie_get(t2.inner().nodes(), t2.inner().root_ref(), slot_trie_key(other)));
    }
}

/// Setting a slot to the value it holds leaves the storage trie as it was:
/// the same nodes and the same root hash.
pub proof fn lemma_rewrite_slot_keeps_trie(t: StorageTrie, slot_key: Seq<u8>, value: Seq<u8>)
    requires
        t.wf(),
        t.slot_of(slot_key) == Some(value),
    ensures
        insert_step(t.inner().nodes(), t.inner().root_ref(), key_path(slot_trie_key(slot_key)), rlp_string(value)) == (t.inner().nodes(), t.inner().root_ref().unwrap()),
{
    crate::trie::lemma_get_value_satisfies(t.inner(), slot_trie_key(slot_key), storage_value_pred());
    let e = t.inner().get_spec(slot_trie_key(slot_key)).unwrap();
    assert(storage_value_ok(e));
    crate::trie::lemma_rewrite_keeps_trie(t.inner(), slot_trie_key(slot_key), rlp_string(value));
}

} // verus!
