use vstd::prelude::*;

use crate::account::{
    account_encoding, account_key, account_shape_ok, Account, AccountTrie, AccountView,
};
use crate::nibbles::key_path;
use crate::rlp_codec::rlp_string;
use crate::storage::{slot_in, slot_trie_key, StorageTrie, MAX_STORAGE_VALUE_LEN};
use crate::trie::{db_wf, full_trie, insert_fresh, insert_step, trie_prove, verify_spec};
use crate::types::{hash_eq, opt_bytes, zero_hash, Address, StorageKey, StorageValue};

verus! {

/// Why a state operation was refused.
#[derive(Debug, Clone, PartialEq, Eq)]
pub enum StateError {
    /// No account is stored for the address.
    AccountNotFound(Address),
    /// The account has a non-empty storage root but its storage trie is not held.
    StorageTrieUnavailable(Address),
}

/// The storage tries held, one per address; each address at most once. A
/// vector with a ghost map as its model, for the reason given at `NodeDb`.
#[derive(Clone)]
struct StorageTries {
    entries: Vec<(Address, StorageTrie)>,
    map: Ghost<Map<Seq<u8>, StorageTrie>>,
}

impl StorageTries {
    closed spec fn wf(&self) -> bool {
        &&& forall|i: int|
            0 <= i < self.entries@.len() ==> #[trigger] self.map@.contains_key(
                self.entries@[i].0@,
            ) && self.map@[self.entries@[i].0@] == self.entries@[i].1
        &&& forall|k: Seq<u8>|
            #[trigger] self.map@.contains_key(k) ==> exists|i: int|
                0 <= i < self.entries@.len() && #[trigger] self.entries@[i].0@ == k
        &&& forall|i: int, j: int|
            0 <= i < self.entries@.len() && 0 <= j < self.entries@.len() && i != j
                ==> #[trigger] self.entries@[i].0@ != #[trigger] self.entries@[j].0@
    }

    fn new() -> (t: Self)
        ensures
            t.wf(),
            t.map@ == Map::<Seq<u8>, StorageTrie>::empty(),
    {
        StorageTries { entries: Vec::new(), map: Ghost(Map::empty()) }
    }

    fn find(&self, address: &Address) -> (r: Option<usize>)
        requires
            self.wf(),
        ensures
            match r {
                Some(i) => i < self.entries@.len() && self.entries@[i as int].0@ == address@,
                None => !self.map@.contains_key(address@),
            },
    {
        let mut i: usize = 0;
        while i < self.entries.len()
            invariant
                self.wf(),
                i <= self.entries@.len(),
                forall|j: int| 0 <= j < i ==> self.entries@[j].0@ != address@,
            decreases self.entries@.len() - i,
        {
            if address_eq(&self.entries[i].0, address) {
                return Some(i);
            }
            i = i + 1;
        }
        proof {
            if self.map@.contains_key(address@) {
                let k = choose|k: int|
                    0 <= k < self.entries@.len() && #[trigger] self.entries@[k].0@ == address@;
                assert(self.entries@[k].0@ == address@);
            }
        }
        None
    }

    fn get(&self, address: &Address) -> (r: Option<&StorageTrie>)
        requires
            self.wf(),
        ensures
            match r {
                Some(t) => self.map@.contains_key(address@) && *t == self.map@[address@],
                None => !self.map@.contains_key(address@),
            },
    {
        match self.find(address) {
            Some(i) => {
                assert(self.map@.contains_key(self.entries@[i as int].0@));
                Some(&self.entries[i].1)
            },
            None => None,
        }
    }

    fn remove(&mut self, address: &Address) -> (r: Option<StorageTrie>)
        requires
            old(self).wf(),
        ensures
            final(self).wf(),
            final(self).map@ == old(self).map@.remove(address@),
            match r {
                Some(t) => old(self).map@.contains_key(address@) && t == old(self).map@[address@],
                None => !old(self).map@.contains_key(address@) && *final(self) == *old(self),
            },
    {
        match self.find(address) {
            Some(i) => {
                let ghost old_entries = self.entries@;
                let ghost new_map = self.map@.remove(address@);
                assert(self.map@.contains_key(old_entries[i as int].0@));
                let (_, t) = self.entries.remove(i);
                self.map = Ghost(new_map);
                assert forall|j: int| 0 <= j < self.entries@.len() implies #[trigger] self.map@.contains_key(
                    self.entries@[j].0@,
                ) && self.map@[self.entries@[j].0@] == self.entries@[j].1 by {
                    let oj = if j < i { j } else { j + 1 };
                    assert(self.entries@[j] == old_entries[oj]);
                    assert(old_entries[oj].0@ != old_entries[i as int].0@);
                    assert(old(self).map@.contains_key(old_entries[oj].0@));
                }
                assert forall|k: Seq<u8>| #[trigger] self.map@.contains_key(k) implies exists|j: int|
                    0 <= j < self.entries@.len() && #[trigger] self.entries@[j].0@ == k by {
                    let oj = choose|oj: int| 0 <= oj < old_entries.len() && #[trigger] old_entries[oj].0@ == k;
                    assert(oj != i);
                    let j = if oj < i { oj } else { oj - 1 };
                    assert(self.entries@[j] == old_entries[oj]);
                }
                assert forall|a: int, b: int|
                    0 <= a < self.entries@.len() && 0 <= b < self.entries@.len() && a != b
                        implies #[trigger] self.entries@[a].0@ != #[trigger] self.entries@[b].0@ by {
                    let oa = if a < i { a } else { a + 1 };
                    let ob = if b < i { b } else { b + 1 };
                    assert(self.entries@[a] == old_entries[oa]);
                    assert(self.entries@[b] == old_entries[ob]);
                }
                Some(t)
            },
            None => {
                assert(self.map@.remove(address@) =~= self.map@);
                None
            },
        }
    }

    fn insert(&mut self, address: Address, trie: StorageTrie)
        requires
            old(self).wf(),
            !old(self).map@.contains_key(address@),
        ensures
            final(self).wf(),
            final(self).map@ == old(self).map@.insert(address@, trie),
    {
        let ghost old_entries = self.entries@;
        let ghost new_map = self.map@.insert(address@, trie);
        self.entries.push((address, trie));
        self.map = Ghost(new_map);
        assert forall|j: int| 0 <= j < self.entries@.len() implies #[trigger] self.map@.contains_key(
            self.entries@[j].0@,
        ) && self.map@[self.entries@[j].0@] == self.entries@[j].1 by {
            if j < old_entries.len() {
                assert(old_entries[j] == self.entries@[j]);
                assert(old(self).map@.contains_key(old_entries[j].0@));
            }
        }
        assert forall|k: Seq<u8>| #[trigger] self.map@.contains_key(k) implies exists|j: int|
            0 <= j < self.entries@.len() && #[trigger] self.entries@[j].0@ == k by {
            if k == address@ {
                assert(self.entries@[old_entries.len() as int].0@ == k);
            } else {
                let j = choose|j: int| 0 <= j < old_entries.len() && #[trigger] old_entries[j].0@ == k;
                assert(self.entries@[j].0@ == k);
            }
        }
        assert forall|a: int, b: int|
            0 <= a < self.entries@.len() && 0 <= b < self.entries@.len() && a != b
                implies #[trigger] self.entries@[a].0@ != #[trigger] self.entries@[b].0@ by {
            if a < old_entries.len() && b < old_entries.len() {
                assert(old_entries[a].0@ != old_entries[b].0@);
            } else if a < old_entries.len() {
                assert(old(self).map@.contains_key(old_entries[a].0@));
            } else {
                assert(old(self).map@.contains_key(old_entries[b].0@));
            }
        }
    }
}

/// Compares two addresses byte by byte.
fn address_eq(a: &Address, b: &Address) -> (r: bool)
    ensures
        r == (a@ == b@),
{
    let mut i: usize = 0;
    while i < 20
        invariant
            i <= 20,
            forall|j: int| 0 <= j < i ==> a@[j] == b@[j],
        decreases 20 - i,
    {
        if a[i] != b[i] {
            return false;
        }
        i = i + 1;
    }
    assert(a@ =~= b@);
    true
}

impl Default for State {
    /// An empty state.
    fn default() -> (state: Self)
        ensures
            state.wf(),
            state.root_spec() == zero_hash(),
            state.storage_map() == Map::<Seq<u8>, StorageTrie>::empty(),
    {
        State::new()
    }
}

/// The storage map after a write of an account whose storage root is
/// `root`: a held storage trie stays only while its root hash is that root.
pub open spec fn synced_storage(m: Map<Seq<u8>, StorageTrie>, address: Seq<u8>, root: Seq<u8>) -> Map<Seq<u8>, StorageTrie> {
    if m.contains_key(address) && m[address].root_spec() == root {
        m
    } else {
        m.remove(address)
    }
}

/// The effect of storing `account` for `address`: the account is inserted
/// into the account trie under the hash of the address, and a storage trie
/// held for the address stays only while its root is the account's storage root.
pub open spec fn account_written(s: State, s2: State, address: Seq<u8>, account: AccountView) -> bool {
    let r = insert_step(s.accounts_trie().inner().nodes(), s.accounts_trie().inner().root_ref(), key_path(account_key(address)), account_encoding(account));
    &&& s2.storage_map() == synced_storage(s.storage_map(), address, account.storage_root)
    &&& s2.accounts_trie().inner().nodes() == r.0
    &&& s2.accounts_trie().inner().root_ref() == Some(r.1)
    &&& account_key(address).len() == 32
}

/// The world state: the account trie and the storage tries held for accounts.
#[derive(Clone)]
pub struct State {
    accounts: AccountTrie,
    storage_tries: StorageTries,
}

impl State {
    /// The account trie.
    pub closed spec fn accounts_trie(&self) -> AccountTrie {
        self.accounts
    }

    /// The storage tries held, by address.
    pub closed spec fn storage_map(&self) -> Map<Seq<u8>, StorageTrie> {
        self.storage_tries.map@
    }

    /// Both tries are well formed, and so is every storage trie held.
    pub closed spec fn wf(&self) -> bool {
        &&& self.accounts.wf()
        &&& self.storage_tries.wf()
        &&& forall|a: Seq<u8>| #[trigger] self.storage_tries.map@.contains_key(a) ==> self.storage_tries.map@[a].wf()
    }

    /// The account stored for an address.
    pub open spec fn account_of(&self, address: Seq<u8>) -> Option<AccountView> {
        self.accounts_trie().account_of(address)
    }

    /// The storage trie held for an address.
    pub open spec fn storage_of(&self, address: Seq<u8>) -> Option<StorageTrie> {
        if self.storage_map().contains_key(address) {
            Some(self.storage_map()[address])
        } else {
            None
        }
    }

    /// The value of a storage slot of an address.
    pub open spec fn slot_of(&self, address: Seq<u8>, slot_key: Seq<u8>) -> Option<Seq<u8>> {
        match self.storage_of(address) {
            Some(t) => t.slot_of(slot_key),
            None => None,
        }
    }

    /// Every storage trie held belongs to a stored account whose storage root
    /// is that trie's root hash.
    pub open spec fn storage_synced(&self) -> bool {
        forall|a: Seq<u8>| #[trigger] self.storage_map().contains_key(a) ==> (self.account_of(a) matches Some(acc)
            && acc.storage_root == self.storage_map()[a].root_spec())
    }

    /// Every path through the account trie as long as an account key ends at
    /// an account, as holds where every account key is 32 bytes long.
    pub open spec fn accounts_full(&self) -> bool {
        full_trie(self.accounts_trie().inner(), 64)
    }

    /// The state root: the root hash of the account trie.
    pub open spec fn root_spec(&self) -> Seq<u8> {
        self.accounts_trie().root_spec()
    }

    /// An empty state.
    pub fn new() -> (state: Self)
        ensures
            state.wf(),
            state.accounts_trie().inner().nodes() == Map::<Seq<u8>, Seq<u8>>::empty(),
            state.accounts_trie().inner().root_ref() is None,
            state.root_spec() == zero_hash(),
            state.storage_map() == Map::<Seq<u8>, StorageTrie>::empty(),
            state.storage_synced(),
            state.accounts_full(),
    {
        State { accounts: AccountTrie::new(), storage_tries: StorageTries::new() }
    }

    /// The state root.
    pub fn root_hash(&self) -> (hash: crate::types::Hash)
        ensures
            hash@ == self.root_spec(),
    {
        self.accounts.root_hash()
    }

    /// Stores a new account; a storage trie held for the address stays only
    /// if its root is the account's storage root.
    pub fn create_account(&mut self, address: Address, account: Account)
        requires
            old(self).wf(),
        ensures
            final(self).wf(),
            account_written(*old(self), *final(self), address@, account@),
    {
        self.sync_storage_trie(address, &account);
        self.accounts.insert_account(address, account);
    }

    /// Replaces an account; a storage trie held for the address stays only if
    /// its root is the account's storage root.
    pub fn update_account(&mut self, address: Address, account: Account)
        requires
            old(self).wf(),
        ensures
            final(self).wf(),
            account_written(*old(self), *final(self), address@, account@),
    {
        self.sync_storage_trie(address, &account);
        self.accounts.insert_account(address, account);
    }

    /// The account stored for an address.
    pub fn get_account(&self, address: Address) -> (account: Option<Account>)
        requires
            self.wf(),
        ensures
            match account {
                Some(a) => self.account_of(address@) == Some(a@),
                None => self.account_of(address@) is None,
            },
    {
        self.accounts.get_account(address)
    }

    /// The proof of an account against the state root.
    pub fn prove_account(&self, address: Address) -> (nodes_on_path: Option<Vec<Vec<u8>>>)
        requires
            self.wf(),
        ensures
            match nodes_on_path {
                Some(p) => trie_prove(self.accounts_trie().inner().nodes(), self.accounts_trie().inner().root_ref(), account_key(address@)) == Some(p.deep_view()),
                None => trie_prove(self.accounts_trie().inner().nodes(), self.accounts_trie().inner().root_ref(), account_key(address@)) is None,
            },
            account_key(address@).len() == 32,
    {
        self.accounts.prove_account(address)
    }

    /// Verifies an account proof against a state root. Only for proofs in
    /// which every node that matches its hash is a branch node
    /// (`check_account_proof` answers `None` for the others).
    pub fn verify_account_proof(root: crate::types::Hash, address: Address, account: &Account, proof_nodes: &[Vec<u8>]) -> (valid: bool)
        requires
            verify_spec(root@, account_key(address@), account_encoding(account@), proof_nodes.deep_view()) is Some,
        ensures
            Some(valid) == verify_spec(root@, account_key(address@), account_encoding(account@), proof_nodes.deep_view()),
    {
        AccountTrie::verify_account_proof(root, address, account, proof_nodes)
    }

    /// Checks an account proof against a state root: `None` for a proof on
    /// which `verify_account_proof` would panic, else its verdict.
    pub fn check_account_proof(root: crate::types::Hash, address: Address, account: &Account, proof_nodes: &[Vec<u8>]) -> (verdict: Option<bool>)
        ensures
            verdict == verify_spec(root@, account_key(address@), account_encoding(account@), proof_nodes.deep_view()),
    {
        match AccountTrie::check_account_proof(root, address, account, proof_nodes) {
            Some(_) => Some(Self::verify_account_proof(root, address, account, proof_nodes)),
            None => None,
        }
    }

    /// The value of a storage slot, if the address's storage trie is held
    /// and the slot was set.
    pub fn get_storage_slot(&self, address: Address, slot_key: StorageKey) -> (value: Option<StorageValue>)
        requires
            self.wf(),
        ensures
            opt_bytes(value) == self.slot_of(address@, slot_key@),
    {
        match self.storage_tries.get(&address) {
            Some(storage_trie) => storage_trie.get_slot(slot_key),
            None => None,
        }
    }

    /// Sets a storage slot of an existing account and records the new
    /// storage root in the account.
    pub fn set_storage_slot(&mut self, address: Address, slot_key: StorageKey, value: StorageValue) -> (result: Result<(), StateError>)
        requires
            old(self).wf(),
            value@.len() <= MAX_STORAGE_VALUE_LEN,
        ensures
            final(self).wf(),
            match old(self).account_of(address@) {
                None => result == Err::<(), StateError>(StateError::AccountNotFound(address)) && *final(self) == *old(self),
                Some(a) => if old(self).storage_of(address@) is None && a.storage_root != zero_hash() {
                    result == Err::<(), StateError>(StateError::StorageTrieUnavailable(address)) && *final(self) == *old(self)
                } else {
                    result == Ok::<(), StateError>(()) && slot_written(*old(self), *final(self), address@, slot_key@, value@, a)
                },
            },
    {
        let mut account = match self.get_account(address) {
            Some(a) => a,
            None => {
                return Err(StateError::AccountNotFound(address));
            },
        };
        let ghost a = account@;
        let ghost before = *self;
        let mut storage_trie = match self.take_storage_trie(address, &account) {
            Ok(t) => t,
            Err(e) => {
                return Err(e);
            },
        };
        storage_trie.set_slot(slot_key, value);
        account.storage_root = storage_trie.root_hash();
        let ghost written = storage_trie;
        self.storage_tries.insert(address, storage_trie);
        assert(self.storage_tries.map@[address@] == written);
        self.update_account(address, account);
        assert(self.storage_map() =~= before.storage_map().insert(address@, written));
        Ok(())
    }

    /// Takes the storage trie of an address out of the state: the one held,
    /// or a new empty one for an account whose storage root is that of an
    /// empty trie; an error for an account with another storage root.
    fn take_storage_trie(&mut self, address: Address, account: &Account) -> (result: Result<StorageTrie, StateError>)
        requires
            old(self).wf(),
        ensures
            final(self).wf(),
            final(self).accounts == old(self).accounts,
            match old(self).storage_of(address@) {
                Some(t) => result == Ok::<StorageTrie, StateError>(t) && final(self).storage_map() == old(self).storage_map().remove(address@),
                None => if account.storage_root@ == zero_hash() {
                    result matches Ok(t) && t.wf() && t.inner().nodes() == Map::<Seq<u8>, Seq<u8>>::empty() && t.inner().root_ref() is None && *final(self) == *old(self)
                } else {
                    result == Err::<StorageTrie, StateError>(StateError::StorageTrieUnavailable(address)) && *final(self) == *old(self)
                },
            },
    {
        match self.storage_tries.remove(&address) {
            Some(t) => {
                return Ok(t);
            },
            None => {},
        }
        if !hash_eq(&account.storage_root, &Account::empty_storage_root()) {
            return Err(StateError::StorageTrieUnavailable(address));
        }
        Ok(StorageTrie::new())
    }

    /// Drops the storage trie held for an address unless its root is the
    /// account's storage root.
    fn sync_storage_trie(&mut self, address: Address, account: &Account)
        requires
            old(self).wf(),
        ensures
            final(self).wf(),
            final(self).accounts == old(self).accounts,
            final(self).storage_map() == synced_storage(old(self).storage_map(), address@, account.storage_root@),
    {
        let keep = match self.storage_tries.get(&address) {
            Some(storage_trie) => {
                let root = storage_trie.root_hash();
                hash_eq(&root, &account.storage_root)
            },
            None => false,
        };
        if !keep {
            self.storage_tries.remove(&address);
        }
    }
}

/// The storage trie that a slot write starts from: the one held, or an empty one.
pub open spec fn base_storage(s: State, address: Seq<u8>) -> (Map<Seq<u8>, Seq<u8>>, Option<Seq<u8>>) {
    match s.storage_of(address) {
        Some(t) => (t.inner().nodes(), t.inner().root_ref()),
        None => (Map::empty(), None),
    }
}

/// The effect of setting a slot of the account `a` stored for `address`: the
/// slot is written into the account's storage trie, which the state holds
/// from then on, and the account is stored again with that trie's new root
/// as its storage root.
pub open spec fn slot_written(s: State, s2: State, address: Seq<u8>, slot_key: Seq<u8>, value: Seq<u8>, a: AccountView) -> bool {
    let base = base_storage(s, address);
    let r = insert_step(base.0, base.1, key_path(slot_trie_key(slot_key)), rlp_string(value));
    let a2 = AccountView { storage_root: r.1, ..a };
    &&& s2.storage_of(address) matches Some(t2) && t2.inner().nodes() == r.0 && t2.inner().root_ref() == Some(r.1)
        && s2.storage_map() == s.storage_map().insert(address, t2)
    &&& s2.accounts_trie().inner().nodes() == insert_step(s.accounts_trie().inner().nodes(), s.accounts_trie().inner().root_ref(), key_path(account_key(address)), account_encoding(a2)).0
    &&& s2.accounts_trie().inner().root_ref() == Some(insert_step(s.accounts_trie().inner().nodes(), s.accounts_trie().inner().root_ref(), key_path(account_key(address)), account_encoding(a2)).1)
    &&& account_key(address).len() == 32
}


/// Reading an account after writing it: once `create_account` or
/// `update_account` has stored an account (meeting no Keccak-256 collision),
/// the address reads that account and every address with another key reads
/// what it read before.
pub proof fn lemma_write_account_then_get(s: State, s2: State, address: Seq<u8>, account: AccountView)
    requires
        s.wf(),
        s2.wf(),
        account_shape_ok(account),
        s2.accounts_trie().inner().nodes() == insert_step(s.accounts_trie().inner().nodes(), s.accounts_trie().inner().root_ref(), key_path(account_key(address)), account_encoding(account)).0,
        s2.accounts_trie().inner().root_ref() == Some(insert_step(s.accounts_trie().inner().nodes(), s.accounts_trie().inner().root_ref(), key_path(account_key(address)), account_encoding(account)).1),
        insert_fresh(s.accounts_trie().inner().nodes(), s.accounts_trie().inner().root_ref(), key_path(account_key(address)), account_encoding(account)),
    ensures
        s2.account_of(address) == Some(account),
        forall|other: Seq<u8>| account_key(other) != account_key(address) ==> #[trigger] s2.account_of(other) == s.account_of(other),
{
    crate::account::lemma_insert_account_then_get(s.accounts_trie(), s2.accounts_trie(), address, account);
}

/// Writing back the account that an address holds changes nothing: the
/// state root and the account trie's nodes stay, and so does every storage
/// trie held while each belongs to its account.
pub proof fn lemma_rewrite_account_keeps_root(s: State, s2: State, address: Seq<u8>, account: AccountView)
    requires
        s.wf(),
        s.account_of(address) == Some(account),
        account_written(s, s2, address, account),
    ensures
        s2.accounts_trie().inner().nodes() == s.accounts_trie().inner().nodes(),
        s2.root_spec() == s.root_spec(),
        forall|b: Seq<u8>| #[trigger] s2.account_of(b) == s.account_of(b),
        s.storage_synced() ==> s2.storage_map() == s.storage_map(),
{
    crate::account::lemma_rewrite_account_keeps_trie(s.accounts_trie(), address, account);
    if !s.storage_map().contains_key(address) {
        assert(s.storage_map().remove(address) =~= s.storage_map());
    }
}

/// Storing an account keeps every storage trie held attached to its account,
/// and fixes the slots the address reads: once `create_account` or
/// `update_account` has stored `account` (meeting no Keccak-256 collision),
/// the address reads `account`; its slots read as before if its previous
/// account had the same storage root, and read nothing otherwise; every
/// other address keeps its storage, and its account where its key differs.
pub proof fn lemma_write_account_keeps_storage_synced(s: State, s2: State, address: Seq<u8>, account: AccountView)
    requires
        s.wf(),
        s2.wf(),
        s.storage_synced(),
        account_shape_ok(account),
        account_written(s, s2, address, account),
        account_write_fresh(s, address, account),
    ensures
        s2.storage_synced(),
        s2.account_of(address) == Some(account),
        forall|k: Seq<u8>| #[trigger] s2.slot_of(address, k) == (if s.account_of(address) matches Some(a) && a.storage_root == account.storage_root {
            s.slot_of(address, k)
        } else {
            None
        }),
        forall|b: Seq<u8>| b != address ==> #[trigger] s2.storage_of(b) == s.storage_of(b),
        forall|b: Seq<u8>| account_key(b) != account_key(address) ==> #[trigger] s2.account_of(b) == s.account_of(b),
{
    lemma_write_account_then_get(s, s2, address, account);
    assert forall|a: Seq<u8>| #[trigger] s2.storage_map().contains_key(a) implies (s2.account_of(a) matches Some(acc)
        && acc.storage_root == s2.storage_map()[a].root_spec()) by {
        assert(s.storage_map().contains_key(a));
        if a != address {
            assert(account_key(a) != account_key(address));
            assert(s2.account_of(a) == s.account_of(a));
        }
    }
    assert forall|k: Seq<u8>| #[trigger] s2.slot_of(address, k) == (if s.account_of(address) matches Some(a) && a.storage_root == account.storage_root {
        s.slot_of(address, k)
    } else {
        None
    }) by {
        if s.storage_map().contains_key(address) {
            assert(s.account_of(address) matches Some(acc) && acc.storage_root == s.storage_map()[address].root_spec());
        }
    }
}

/// Writing `account` for `address` meets no Keccak-256 collision: none in the
/// nodes of the account trie, and none between the key of `address` and that
/// of another address whose storage trie is held.
pub open spec fn account_write_fresh(s: State, address: Seq<u8>, account: AccountView) -> bool {
    &&& insert_fresh(s.accounts_trie().inner().nodes(), s.accounts_trie().inner().root_ref(), key_path(account_key(address)), account_encoding(account))
    &&& forall|b: Seq<u8>| #[trigger] s.storage_map().contains_key(b) && b != address ==> account_key(b) != account_key(address)
}

/// `create_account` and `update_account` do the same: two states that both
/// store `account` for `address` from the same state have the same account
/// trie, the same root and the same storage tries.
pub proof fn lemma_account_write_determined(s: State, s2: State, s3: State, address: Seq<u8>, account: AccountView)
    requires
        account_written(s, s2, address, account),
        account_written(s, s3, address, account),
    ensures
        s2.root_spec() == s3.root_spec(),
        s2.storage_map() == s3.storage_map(),
        forall|b: Seq<u8>| #[trigger] s2.account_of(b) == s3.account_of(b),
        forall|b: Seq<u8>, k: Seq<u8>| #[trigger] s2.slot_of(b, k) == s3.slot_of(b, k),
{
}

/// Reading a slot after writing it: once `set_storage_slot` has written a
/// slot (meeting no Keccak-256 collision in the storage trie), the slot reads
/// the value, every other slot of the address with another trie key reads
/// what it read before, and the storage of every other address is untouched.
pub proof fn lemma_set_storage_slot_then_get(s: State, s2: State, address: Seq<u8>, slot_key: Seq<u8>, value: Seq<u8>, a: AccountView)
    requires
        s.wf(),
        s2.wf(),
        value.len() <= MAX_STORAGE_VALUE_LEN,
        slot_written(s, s2, address, slot_key, value, a),
        insert_fresh(base_storage(s, address).0, base_storage(s, address).1, key_path(slot_trie_key(slot_key)), rlp_string(value)),
    ensures
        s2.slot_of(address, slot_key) == Some(value),
        forall|other: Seq<u8>| slot_trie_key(other) != slot_trie_key(slot_key) ==> #[trigger] s2.slot_of(address, other) == s.slot_of(address, other),
        forall|other: Seq<u8>| other != address ==> #[trigger] s2.storage_of(other) == s.storage_of(other),
{
    let base = base_storage(s, address);
    let t2 = s2.storage_of(address).unwrap();
    assert(s2.storage_tries.map@.contains_key(address));
    assert(t2.wf());
    if let Some(t) = s.storage_of(address) {
        assert(s.storage_tries.map@.contains_key(address));
        assert(t.wf());
        crate::trie::lemma_trie_wf_nodes(t.inner());
    }
    assert(db_wf(base.0));
    crate::storage::lemma_set_slot_then_get(base.0, base.1, t2, slot_key, value);
    assert forall|other: Seq<u8>| slot_trie_key(other) != slot_trie_key(slot_key) implies #[trigger] s2.slot_of(address, other) == s.slot_of(address, other) by {
        if let Some(t) = s.storage_of(address) {
            assert(t.slot_of(other) == slot_in(t.inner().nodes(), t.inner().root_ref(), other));
        }
    }
}

/// Writing back the value that a slot holds changes nothing observable:
/// while every storage trie held belongs to its account, such a slot write
/// succeeds (the address has an account and a storage trie), and afterwards
/// the state root, every account and every slot read as before, and every
/// storage trie held still belongs to its account.
pub proof fn lemma_rewrite_slot_keeps_root(s: State, s2: State, address: Seq<u8>, slot_key: Seq<u8>, value: Seq<u8>, a: AccountView)
    requires
        s.wf(),
        s.storage_synced(),
        s.account_of(address) == Some(a),
        s.slot_of(address, slot_key) == Some(value),
        slot_written(s, s2, address, slot_key, value, a),
    ensures
        s.storage_of(address) is Some,
        s2.root_spec() == s.root_spec(),
        forall|b: Seq<u8>| #[trigger] s2.account_of(b) == s.account_of(b),
        forall|b: Seq<u8>, k: Seq<u8>| #[trigger] s2.slot_of(b, k) == s.slot_of(b, k),
        s2.storage_synced(),
{
    let t = s.storage_of(address).unwrap();
    assert(s.storage_tries.map@.contains_key(address));
    assert(t.wf());
    crate::storage::lemma_rewrite_slot_keeps_trie(t, slot_key, value);
    let r = insert_step(t.inner().nodes(), t.inner().root_ref(), key_path(slot_trie_key(slot_key)), rlp_string(value));
    assert(r.1 == a.storage_root);
    let a2 = AccountView { storage_root: r.1, ..a };
    assert(a2 == a);
    crate::account::lemma_rewrite_account_keeps_trie(s.accounts_trie(), address, a);
    let t2 = s2.storage_of(address).unwrap();
    assert(t2.inner().nodes() == t.inner().nodes());
    assert(t2.inner().root_ref() == t.inner().root_ref());
    assert forall|b: Seq<u8>, k: Seq<u8>| #[trigger] s2.slot_of(b, k) == s.slot_of(b, k) by {
        if b == address {
            assert(t2.slot_of(k) == t.slot_of(k));
        }
    }
    assert forall|b: Seq<u8>| #[trigger] s2.storage_map().contains_key(b) implies (s2.account_of(b) matches Some(acc)
        && acc.storage_root == s2.storage_map()[b].root_spec()) by {
        assert(s.storage_map().contains_key(b));
    }
}

/// A slot write keeps every storage trie held attached to its account: after
/// `set_storage_slot` has written a slot (meeting no Keccak-256 collision
/// in the account trie), every storage trie held belongs to a stored account
/// whose storage root is that trie's root.
pub proof fn lemma_set_storage_slot_keeps_storage_synced(s: State, s2: State, address: Seq<u8>, slot_key: Seq<u8>, value: Seq<u8>, a: AccountView)
    requires
        s.wf(),
        s2.wf(),
        s.storage_synced(),
        s.account_of(address) == Some(a),
        slot_written(s, s2, address, slot_key, value, a),
        account_write_fresh(s, address, AccountView { storage_root: s2.storage_of(address).unwrap().root_spec(), ..a }),
    ensures
        s2.storage_synced(),
{
    let t2 = s2.storage_of(address).unwrap();
    let a2 = AccountView { storage_root: t2.root_spec(), ..a };
    lemma_set_storage_slot_records_root(s, s2, address, slot_key, value, a);
    assert(s2.account_of(address) == Some(a2));
    assert(account_shape_ok(a2)) by {
        assert(s2.storage_tries.map@.contains_key(address));
        crate::trie::lemma_trie_wf_nodes(t2.inner());
        assert(crate::trie::entry_ok(t2.inner().nodes(), t2.inner().root_ref().unwrap()));
        assert(account_shape_ok(a));
    }
    lemma_write_account_then_get(s, s2, address, a2);
    assert forall|b: Seq<u8>| #[trigger] s2.storage_map().contains_key(b) implies (s2.account_of(b) matches Some(acc)
        && acc.storage_root == s2.storage_map()[b].root_spec()) by {
        if b != address {
            assert(s.storage_map().contains_key(b));
            assert(account_key(b) != account_key(address));
        }
    }
}

/// A slot write records the storage trie's new root in the account and
/// keeps the account's other fields: after `set_storage_slot` (meeting no
/// Keccak-256 collision in the account trie), the address reads its old
/// account with the new root of its storage trie as storage root.
pub proof fn lemma_set_storage_slot_records_root(s: State, s2: State, address: Seq<u8>, slot_key: Seq<u8>, value: Seq<u8>, a: AccountView)
    requires
        s.wf(),
        s2.wf(),
        s.account_of(address) == Some(a),
        slot_written(s, s2, address, slot_key, value, a),
        insert_fresh(s.accounts_trie().inner().nodes(), s.accounts_trie().inner().root_ref(), key_path(account_key(address)), account_encoding(AccountView { storage_root: s2.storage_of(address).unwrap().root_spec(), ..a })),
    ensures
        s2.storage_of(address) matches Some(t2) && s2.account_of(address) == Some(AccountView { storage_root: t2.root_spec(), ..a }),
{
    let t2 = s2.storage_of(address).unwrap();
    assert(s2.storage_tries.map@.contains_key(address));
    assert(t2.wf());
    crate::trie::lemma_trie_wf_nodes(t2.inner());
    let r = t2.inner().root_ref().unwrap();
    assert(crate::trie::entry_ok(t2.inner().nodes(), r));
    let a2 = AccountView { storage_root: t2.root_spec(), ..a };
    assert(account_shape_ok(a));
    assert(account_shape_ok(a2));
    lemma_write_account_then_get(s, s2, address, a2);
}

/// Inclusion proofs of the state: an address that holds `account` has a
/// proof, `prove_account` returns it, and it verifies against the state root
/// for `account` and for no other account.
pub proof fn lemma_prove_account_then_verify(s: State, address: Seq<u8>, account: AccountView)
    requires
        s.wf(),
        s.account_of(address) == Some(account),
    ensures
        trie_prove(s.accounts_trie().inner().nodes(), s.accounts_trie().inner().root_ref(), account_key(address)) matches Some(p)
            && verify_spec(s.root_spec(), account_key(address), account_encoding(account), p) == Some(true)
            && forall|other: AccountView| account_shape_ok(other) && other != account
                ==> #[trigger] verify_spec(s.root_spec(), account_key(address), account_encoding(other), p) == Some(false),
{
    crate::account::lemma_prove_account_then_verify(s.accounts_trie(), address, account);
}

/// Storing an account keeps the account trie full: after `create_account`,
/// `update_account` or the account write of `set_storage_slot` (meeting no
/// Keccak-256 collision), every path of an account key's length through the
/// account trie still ends at an account.
pub proof fn lemma_write_account_keeps_full(s: State, s2: State, address: Seq<u8>, account: AccountView)
    requires
        s.wf(),
        s2.wf(),
        s.accounts_full(),
        account_shape_ok(account),
        account_key(address).len() == 32,
        s2.accounts_trie().inner().nodes() == insert_step(s.accounts_trie().inner().nodes(), s.accounts_trie().inner().root_ref(), key_path(account_key(address)), account_encoding(account)).0,
        s2.accounts_trie().inner().root_ref() == Some(insert_step(s.accounts_trie().inner().nodes(), s.accounts_trie().inner().root_ref(), key_path(account_key(address)), account_encoding(account)).1),
        insert_fresh(s.accounts_trie().inner().nodes(), s.accounts_trie().inner().root_ref(), key_path(account_key(address)), account_encoding(account)),
    ensures
        s2.accounts_full(),
{
    crate::account::lemma_account_encoding_len(account);
    crate::trie::lemma_insert_keeps_full(s.accounts_trie().inner(), s2.accounts_trie().inner(), account_key(address), account_encoding(account));
}

/// Account proofs exist exactly for stored accounts: in a state whose
/// account trie is full, `prove_account` gives a proof for an address
/// exactly when the address holds an account (there are no proofs of absence).
pub proof fn lemma_prove_account_iff_stored(s: State, address: Seq<u8>)
    requires
        s.wf(),
        s.accounts_full(),
        account_key(address).len() == 32,
    ensures
        (trie_prove(s.accounts_trie().inner().nodes(), s.accounts_trie().inner().root_ref(), account_key(address)) is Some)
            == (s.account_of(address) is Some),
{
    let t = s.accounts_trie().inner();
    crate::trie::lemma_full_prove_iff_get(t, account_key(address));
    crate::trie::lemma_get_value_satisfies(t, account_key(address), crate::account::account_value_pred());
}

} // verus!
