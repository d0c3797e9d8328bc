# toy_merkle_radix_account_trie

A small Ethereum-style state library, verified with Verus: a Merkle radix
trie whose nodes are stored by the Keccak-256 hash of their RLP encoding,
an account trie and per-account storage tries on top of it, transaction and
receipt tries keyed by position, and the hex-prefix (compact) path encoding.

## Layout

- `src/types.rs` – hashes, addresses, byte comparisons.
- `src/nibbles.rs` – splitting bytes into nibbles and packing them back.
- `src/mpt.rs` – hex-prefix path encoding and the node shapes of a Patricia trie.
- `src/rlp_codec.rs` – the RLP format as spec functions, and the calls into the `rlp` crate.
- `src/hashing.rs` – the call into `sha3` for Keccak-256.
- `src/trie.rs` – branch nodes, the node store, the trie (insert, get, prove) and proof checking.
- `src/account.rs` – accounts and the account trie.
- `src/storage.rs` – storage tries of slot values.
- `src/execution.rs` – the world state: accounts plus the storage tries held for them.
- `src/transaction.rs` – transactions, receipts, and their ordered tries.
- `tests/` – tests of the library.
- `app/main.rs` – a demonstration program that prints an account trie and checks proofs.

Operations on the tries are specified over the map from hashes to encoded
nodes; the laws (reading after a write, rewriting a value, proofs verifying
exactly when a key holds a value) are stated for insertions that meet no
Keccak-256 collision.

Two properties of the world state hold of every state built from
`State::new` by writes that meet no collision: every storage trie held
belongs to a stored account whose storage root is that trie's root
(`storage_synced`), and every path of an account key's length through the
account trie ends at an account (`accounts_full`). The laws on slots after an
account write, on rewriting a slot, and on which addresses have proofs rest
on them.

The transaction and receipt roots are roots of this library's radix trie of
branch nodes (one branch per nibble of the RLP-encoded index), not of a
Patricia trie with leaf and extension nodes: for a non-empty list they are
not the roots Ethereum computes. `src/mpt.rs` holds the hex-prefix encoding
and node shapes of such a Patricia trie, but no trie is built from them.

The size bounds (`MAX_ITEM_LEN`, `MAX_STORAGE_VALUE_LEN`, `MAX_ERROR_LEN`)
come from the RLP stream, which writes lengths as 32-bit numbers; each is its
exact limit rounded down to a multiple of 4096, as its doc comment explains.
