use vstd::prelude::*;

use crate::hashing::{keccak256, keccak256_spec};
use crate::nibbles::{bytes_to_nibbles, key_path};
use crate::rlp_codec::{
    rlp_append_bytes, rlp_append_empty, rlp_bytes_at, rlp_bytes_at_spec, rlp_fits, rlp_item_count,
    rlp_item_count_spec, rlp_list_decodes_to, rlp_list_of_strings, rlp_new_list, rlp_out,
    rlp_stream_items, rlp_stream_list_len, rlp_weight, MAX_ITEM_LEN,
};
use crate::types::{bytes_eq, hash_eq, hash_from_vec, opt_bytes, zero_hash, zero_hash_value};

verus! {

// ---------------------------------------------------------------------------
// Branch nodes and their encoding.
// ---------------------------------------------------------------------------

/// The mathematical content of a branch node: one optional child hash per
/// nibble and an optional value.
pub struct NodeView {
    pub children: Seq<Option<Seq<u8>>>,
    pub value: Option<Seq<u8>>,
}

/// `Some(b)` for a non-empty byte string, `None` for the empty one.
pub open spec fn nonempty(b: Seq<u8>) -> Option<Seq<u8>> {
    if b.len() == 0 {
        None
    } else {
        Some(b)
    }
}

/// The RLP field of an optional byte string: the empty string stands for `None`.
pub open spec fn field_of(c: Option<Seq<u8>>) -> Seq<u8> {
    match c {
        Some(b) => b,
        None => Seq::empty(),
    }
}

/// The 17 RLP fields of a branch node: the 16 child hashes, then the value.
pub open spec fn node_fields(n: NodeView) -> Seq<Seq<u8>> {
    Seq::new(
        17,
        |i: int|
            if i < 16 {
                field_of(n.children[i])
            } else {
                field_of(n.value)
            },
    )
}

/// The RLP encoding of a branch node: a list of its 17 fields.
pub open spec fn node_encoding(n: NodeView) -> Seq<u8> {
    rlp_list_of_strings(node_fields(n))
}

/// A node that can be encoded: 16 children, each a 32-byte hash, and a value
/// of at most `MAX_ITEM_LEN` bytes.
pub open spec fn node_shape_ok(n: NodeView) -> bool {
    &&& n.children.len() == 16
    &&& forall|i: int| 0 <= i < 16 ==> (#[trigger] n.children[i] matches Some(h) ==> h.len() == 32)
    &&& n.value matches Some(v) ==> v.len() <= MAX_ITEM_LEN
}

/// The node that decoding gives back: an empty value reads as no value.
pub open spec fn normalized(n: NodeView) -> NodeView {
    NodeView {
        children: n.children,
        value: match n.value {
            Some(v) => nonempty(v),
            None => None,
        },
    }
}

/// A child field holds no hash or a 32-byte hash.
pub open spec fn child_field_ok(b: Seq<u8>) -> bool {
    b.len() == 0 || b.len() == 32
}

/// What decoding a branch node gives: `None` where decoding fails (not a
/// list of 17 byte strings, or a child field that is neither empty nor 32 bytes).
pub open spec fn decode_node(data: Seq<u8>) -> Option<NodeView> {
    if rlp_item_count_spec(data) == Some(17nat) && (forall|i: nat|
        i < 17 ==> (#[trigger] rlp_bytes_at_spec(data, i)) is Some) && (forall|i: nat|
        i < 16 ==> child_field_ok(#[trigger] rlp_bytes_at_spec(data, i).unwrap())) {
        Some(
            NodeView {
                children: Seq::new(16, |i: int| nonempty(rlp_bytes_at_spec(data, i as nat).unwrap())),
                value: nonempty(rlp_bytes_at_spec(data, 16).unwrap()),
            },
        )
    } else {
        None
    }
}

/// The bytes are the encoding of this node.
pub open spec fn encodes_node(data: Seq<u8>, n: NodeView) -> bool {
    node_shape_ok(n) && data == node_encoding(n)
}

/// Whatever node these bytes encode, decoding gives it back.
pub open spec fn decodes_faithfully(data: Seq<u8>) -> bool {
    forall|n: NodeView| #[trigger] encodes_node(data, n) ==> decode_node(data) == Some(normalized(n))
}

/// Where the decoder gives back the 17 fields of a node, `decode_node` gives the node.
proof fn lemma_decode_node_of_fields(data: Seq<u8>, n: NodeView)
    requires
        node_shape_ok(n),
        rlp_list_decodes_to(data, node_fields(n)),
    ensures
        decode_node(data) == Some(normalized(n)),
{
    let f = node_fields(n);
    assert forall|i: nat| i < 17 implies (#[trigger] rlp_bytes_at_spec(data, i)) is Some by {
        assert(rlp_bytes_at_spec(data, i) == Some(f[i as int]));
    }
    assert forall|i: nat| i < 16 implies child_field_ok(
        #[trigger] rlp_bytes_at_spec(data, i).unwrap(),
    ) by {
        assert(rlp_bytes_at_spec(data, i) == Some(f[i as int]));
        assert(n.children[i as int] matches Some(h) ==> h.len() == 32);
    }
    let d = decode_node(data).unwrap();
    assert forall|i: int| 0 <= i < 16 implies d.children[i] == n.children[i] by {
        assert(rlp_bytes_at_spec(data, i as nat) == Some(f[i]));
        assert(n.children[i] matches Some(h) ==> h.len() == 32);
    }
    assert(rlp_bytes_at_spec(data, 16) == Some(f[16]));
    assert(d.children =~= n.children);
}

/// Normalizing a node does not change its encoding.
proof fn lemma_normalized_encoding(n: NodeView)
    requires
        node_shape_ok(n),
    ensures
        node_fields(normalized(n)) == node_fields(n),
        node_encoding(normalized(n)) == node_encoding(n),
        node_shape_ok(normalized(n)),
{
    if let Some(v) = n.value {
        if v.len() == 0 {
            assert(v =~= Seq::<u8>::empty());
        }
    }
    assert(node_fields(normalized(n))[16] == node_fields(n)[16]);
    assert(node_fields(normalized(n)) =~= node_fields(n));
}

/// The fields of a well-shaped node fit the RLP stream.
proof fn lemma_node_fields_fit(n: NodeView)
    requires
        node_shape_ok(n),
    ensures
        rlp_fits(node_fields(n)),
{
    let f = node_fields(n);
    let children = f.drop_last();
    assert forall|i: int| 0 <= i < children.len() implies #[trigger] children[i].len() <= 32 by {
        assert(n.children[i] matches Some(h) ==> h.len() == 32);
    }
    crate::rlp_codec::lemma_rlp_weight_bound(children, 32);
    assert(f.last() == f[16]);
    assert(f[16].len() <= MAX_ITEM_LEN);
    assert(rlp_weight(f) == rlp_weight(children) + f[16].len() + 5);
}

/// A radix branch node: one child slot per nibble plus an optional value.
#[derive(Debug, Clone)]
pub struct BranchNode {
    pub children: [Option<crate::types::Hash>; 16],
    pub value: Option<Vec<u8>>,
}

/// The view of an optional hash.
pub open spec fn opt_hash_view(c: Option<crate::types::Hash>) -> Option<Seq<u8>> {
    match c {
        Some(h) => Some(h@),
        None => None,
    }
}

impl View for BranchNode {
    type V = NodeView;

    open spec fn view(&self) -> NodeView {
        NodeView {
            children: Seq::new(16, |i: int| opt_hash_view(self.children@[i])),
            value: match self.value {
                Some(v) => Some(v@),
                None => None,
            },
        }
    }
}

/// The node with no children and no value.
pub open spec fn empty_node() -> NodeView {
    NodeView { children: Seq::new(16, |i: int| None::<Seq<u8>>), value: None }
}

impl BranchNode {
    /// A branch with no children and no value.
    pub fn new() -> (node: Self)
        ensures
            node@ == empty_node(),
    {
        let node = BranchNode { children: [None; 16], value: None };
        assert(node@.children =~= empty_node().children);
        node
    }

    /// RLP layout: the 16 child hash fields followed by the value field; an
    /// absent child or value is the empty byte string.
    pub fn encode(&self) -> (encoded: Vec<u8>)
        requires
            self.value matches Some(v) ==> v@.len() <= MAX_ITEM_LEN,
        ensures
            encoded@ == node_encoding(self@),
            decodes_faithfully(encoded@),
            decode_node(encoded@) == Some(normalized(self@)),
            (self.value matches Some(v) ==> v@.len() > 0) ==> decode_node(encoded@) == Some(self@),
    {
        let mut stream = rlp_new_list(17);
        let mut i: usize = 0;
        while i < 16
            invariant
                i <= 16,
                rlp_stream_list_len(stream) == Some(17nat),
                rlp_stream_items(stream) == node_fields(self@).subrange(0, i as int),
            decreases 16 - i,
        {
            match self.children[i] {
                Some(hash) => {
                    rlp_append_bytes(&mut stream, hash.as_slice());
                },
                None => {
                    rlp_append_empty(&mut stream);
                },
            }
            assert(node_fields(self@).subrange(0, i + 1) =~= node_fields(self@).subrange(
                0,
                i as int,
            ).push(node_fields(self@)[i as int]));
            i = i + 1;
        }
        match &self.value {
            Some(value) => {
                rlp_append_bytes(&mut stream, value.as_slice());
            },
            None => {
                rlp_append_empty(&mut stream);
            },
        }
        assert(rlp_stream_items(stream) =~= node_fields(self@));
        proof {
            lemma_node_fields_fit(self@);
        }
        let encoded = rlp_out(stream);
        proof {
            assert forall|n: NodeView| #[trigger] encodes_node(encoded@, n) implies decode_node(
                encoded@,
            ) == Some(normalized(n)) by {
                lemma_node_fields_fit(n);
                assert(rlp_list_decodes_to(encoded@, node_fields(n)));
                lemma_decode_node_of_fields(encoded@, n);
            }
            assert(encodes_node(encoded@, self@));
        }
        encoded
    }

    /// Decodes a branch node; empty RLP fields become empty slots. `None`
    /// where the bytes are not a list of 17 byte strings whose child fields
    /// are empty or 32 bytes long.
    pub fn try_decode(bytes: &[u8]) -> (node: Option<Self>)
        ensures
            match node {
                Some(n) => decode_node(bytes@) == Some(n@),
                None => decode_node(bytes@) is None,
            },
    {
        match rlp_item_count(bytes) {
            Ok(count) => {
                if count != 17 {
                    return None;
                }
            },
            Err(_) => {
                return None;
            },
        }
        let mut node = BranchNode::new();
        let mut i: usize = 0;
        while i < 16
            invariant
                i <= 16,
                rlp_item_count_spec(bytes@) == Some(17nat),
                node.value is None,
                forall|j: nat| j < i ==> (#[trigger] rlp_bytes_at_spec(bytes@, j)) is Some,
                forall|j: nat| j < i ==> child_field_ok(#[trigger] rlp_bytes_at_spec(bytes@, j).unwrap()),
                forall|j: int| 0 <= j < i ==> opt_hash_view(node.children@[j]) == nonempty(rlp_bytes_at_spec(bytes@, j as nat).unwrap()),
            decreases 16 - i,
        {
            match rlp_bytes_at(bytes, i) {
                Ok(data) => {
                    if data.len() == 0 {
                        node.children[i] = None;
                    } else if data.len() == 32 {
                        let hash = hash_from_vec(&data);
                        node.children[i] = Some(hash);
                    } else {
                        assert(!child_field_ok(rlp_bytes_at_spec(bytes@, i as nat).unwrap()));
                        return None;
                    }
                },
                Err(_) => {
                    return None;
                },
            }
            i = i + 1;
        }
        match rlp_bytes_at(bytes, 16) {
            Ok(value) => {
                if value.len() != 0 {
                    node.value = Some(value);
                }
            },
            Err(_) => {
                return None;
            },
        }
        assert forall|j: nat| j < 17 implies (#[trigger] rlp_bytes_at_spec(bytes@, j)) is Some by {
            if j < 16 {
                assert(rlp_bytes_at_spec(bytes@, j) is Some);
            }
        }
        let ghost d = decode_node(bytes@).unwrap();
        assert(node@.children =~= d.children);
        Some(node)
    }

    /// Decodes a branch node that is known to be well formed (`try_decode`
    /// answers `None` for other bytes).
    pub fn decode(bytes: &[u8]) -> (node: Self)
        requires
            decode_node(bytes@) is Some,
        ensures
            node@ == decode_node(bytes@).unwrap(),
    {
        Self::try_decode(bytes).unwrap()
    }
}

// ---------------------------------------------------------------------------
// The node database.
// ---------------------------------------------------------------------------

/// Content-addressed node storage: the hash of an encoded node maps to the
/// encoded node. The entries hold each hash at most once. They are a vector
/// with a ghost map as its model: vstd specifies `HashMap` only for key types
/// that obey its key model, which it gives for integer keys and not for
/// 32-byte arrays, so a `HashMap` keyed by hashes could not be reasoned about.
#[derive(Clone)]
pub struct NodeDb {
    entries: Vec<(crate::types::Hash, Vec<u8>)>,
    map: Ghost<Map<Seq<u8>, Seq<u8>>>,
}

impl View for NodeDb {
    type V = Map<Seq<u8>, Seq<u8>>;

    closed spec fn view(&self) -> Map<Seq<u8>, Seq<u8>> {
        self.map@
    }
}

impl NodeDb {
    /// The entries are the map, with no hash twice.
    pub closed spec fn wf(&self) -> bool {
        &&& forall|i: int|
            0 <= i < self.entries@.len() ==> #[trigger] self.map@.contains_key(
                self.entries@[i].0@,
            ) && self.map@[self.entries@[i].0@] == self.entries@[i].1@
        &&& forall|k: Seq<u8>|
            #[trigger] self.map@.contains_key(k) ==> exists|i: int|
                0 <= i < self.entries@.len() && #[trigger] self.entries@[i].0@ == k
        &&& forall|i: int, j: int|
            0 <= i < self.entries@.len() && 0 <= j < self.entries@.len() && i != j
                ==> #[trigger] self.entries@[i].0@ != #[trigger] self.entries@[j].0@
    }

    /// An empty database.
    pub fn new() -> (db: Self)
        ensures
            db.wf(),
            db@ == Map::<Seq<u8>, Seq<u8>>::empty(),
    {
        NodeDb { entries: Vec::new(), map: Ghost(Map::empty()) }
    }

    /// The index of the entry that holds this hash, if any.
    fn find(&self, hash: &crate::types::Hash) -> (r: Option<usize>)
        requires
            self.wf(),
        ensures
            match r {
                Some(i) => i < self.entries@.len() && self.entries@[i as int].0@ == hash@,
                None => !self@.contains_key(hash@),
            },
    {
        let mut i: usize = 0;
        while i < self.entries.len()
            invariant
                self.wf(),
                i <= self.entries@.len(),
                forall|j: int| 0 <= j < i ==> self.entries@[j].0@ != hash@,
            decreases self.entries@.len() - i,
        {
            if hash_eq(&self.entries[i].0, hash) {
                return Some(i);
            }
            i = i + 1;
        }
        proof {
            if self@.contains_key(hash@) {
                let k = choose|k: int|
                    0 <= k < self.entries@.len() && #[trigger] self.entries@[k].0@ == hash@;
                assert(self.entries@[k].0@ == hash@);
            }
        }
        None
    }

    /// The encoded node stored under this hash.
    pub fn get(&self, hash: &crate::types::Hash) -> (r: Option<&Vec<u8>>)
        requires
            self.wf(),
        ensures
            match r {
                Some(v) => self@.contains_key(hash@) && v@ == self@[hash@],
                None => !self@.contains_key(hash@),
            },
    {
        match self.find(hash) {
            Some(i) => {
                assert(self.map@.contains_key(self.entries@[i as int].0@));
                Some(&self.entries[i].1)
            },
            None => None,
        }
    }

    /// Stores an encoded node under its hash, replacing what was there.
    pub fn insert(&mut self, hash: crate::types::Hash, encoded: Vec<u8>)
        requires
            old(self).wf(),
        ensures
            final(self).wf(),
            final(self)@ == old(self)@.insert(hash@, encoded@),
    {
        let ghost new_map = self.map@.insert(hash@, encoded@);
        match self.find(&hash) {
            Some(i) => {
                let ghost old_entries = self.entries@;
                self.entries.set(i, (hash, encoded));
                self.map = Ghost(new_map);
                assert forall|j: int| 0 <= j < self.entries@.len() implies #[trigger] self.map@.contains_key(
                    self.entries@[j].0@,
                ) && self.map@[self.entries@[j].0@] == self.entries@[j].1@ by {
                    if j != i {
                        assert(old_entries[j].0@ != old_entries[i as int].0@);
                        assert(old_entries[j] == self.entries@[j]);
                        assert(old(self).map@.contains_key(old_entries[j].0@));
                    } else {
                        assert(self.entries@[j] == (hash, encoded));
                    }
                }
                assert forall|a: int, b: int|
                    0 <= a < self.entries@.len() && 0 <= b < self.entries@.len() && a != b
                        implies #[trigger] self.entries@[a].0@ != #[trigger] self.entries@[b].0@ by {
                    assert(old_entries[a].0@ != old_entries[b].0@);
                }
                assert forall|k: Seq<u8>| #[trigger] self.map@.contains_key(k) implies exists|
                    j: int,
                | 0 <= j < self.entries@.len() && #[trigger] self.entries@[j].0@ == k by {
                    if k == hash@ {
                        assert(self.entries@[i as int].0@ == k);
                    } else {
                        let j = choose|j: int|
                            0 <= j < old_entries.len() && #[trigger] old_entries[j].0@ == k;
                        assert(self.entries@[j].0@ == k);
                    }
                }
            },
            None => {
                let ghost old_entries = self.entries@;
                self.entries.push((hash, encoded));
                self.map = Ghost(new_map);
                assert forall|j: int| 0 <= j < self.entries@.len() implies #[trigger] self.map@.contains_key(
                    self.entries@[j].0@,
                ) && self.map@[self.entries@[j].0@] == self.entries@[j].1@ by {
                    if j < old_entries.len() {
                        assert(old_entries[j] == self.entries@[j]);
                        assert(old(self).map@.contains_key(old_entries[j].0@));
                    }
                }
                assert forall|a: int, b: int|
                    0 <= a < self.entries@.len() && 0 <= b < self.entries@.len() && a != b
                        implies #[trigger] self.entries@[a].0@ != #[trigger] self.entries@[b].0@ by {
                    if a < old_entries.len() && b < old_entries.len() {
                        assert(old_entries[a].0@ != old_entries[b].0@);
                    } else if a < old_entries.len() {
                        assert(old(self).map@.contains_key(old_entries[a].0@));
                    } else {
                        assert(old(self).map@.contains_key(old_entries[b].0@));
                    }
                }
                assert forall|k: Seq<u8>| #[trigger] self.map@.contains_key(k) implies exists|
                    j: int,
                | 0 <= j < self.entries@.len() && #[trigger] self.entries@[j].0@ == k by {
                    if k == hash@ {
                        assert(self.entries@[old_entries.len() as int].0@ == k);
                    } else {
                        let j = choose|j: int|
                            0 <= j < old_entries.len() && #[trigger] old_entries[j].0@ == k;
                        assert(self.entries@[j].0@ == k);
                    }
                }
            },
        }
    }
}

// ---------------------------------------------------------------------------
// The trie as a map of hashes to encoded nodes.
// ---------------------------------------------------------------------------

/// Every child of the node is stored.
pub open spec fn children_in(db: Map<Seq<u8>, Seq<u8>>, n: NodeView) -> bool {
    forall|i: int| 0 <= i < 16 ==> (#[trigger] n.children[i] matches Some(c) ==> db.contains_key(c))
}

/// The entry under `h` is stored under its own hash, decodes to a node that
/// it is the encoding of, and that node's children are stored.
pub open spec fn entry_ok(db: Map<Seq<u8>, Seq<u8>>, h: Seq<u8>) -> bool {
    &&& h.len() == 32
    &&& keccak256_spec(db[h]) == h
    &&& decodes_faithfully(db[h])
    &&& decode_node(db[h]) matches Some(n) && encodes_node(db[h], n) && children_in(db, n)
}

/// Every entry of the node map is well formed.
pub open spec fn db_wf(db: Map<Seq<u8>, Seq<u8>>) -> bool {
    forall|h: Seq<u8>| #[trigger] db.contains_key(h) ==> entry_ok(db, h)
}

/// Every value that a stored node holds satisfies `p`.
pub open spec fn values_satisfy(db: Map<Seq<u8>, Seq<u8>>, p: spec_fn(Seq<u8>) -> bool) -> bool {
    forall|h: Seq<u8>|
        #[trigger] db.contains_key(h) ==> (decode_node(db[h]) matches Some(n) ==> (
        n.value matches Some(v) ==> p(v)))
}

/// The value found by following `path` from the node stored under `h`.
pub open spec fn lookup(db: Map<Seq<u8>, Seq<u8>>, h: Seq<u8>, path: Seq<usize>) -> Option<Seq<u8>>
    decreases path.len(),
{
    if !db.contains_key(h) {
        None
    } else {
        match decode_node(db[h]) {
            None => None,
            Some(n) => if path.len() == 0 {
                n.value
            } else if path[0] < 16 {
                match n.children[path[0] as int] {
                    Some(c) => lookup(db, c, path.drop_first()),
                    None => None,
                }
            } else {
                None
            },
        }
    }
}

/// The value found by following `path` from an optional root.
pub open spec fn lookup_from(db: Map<Seq<u8>, Seq<u8>>, root: Option<Seq<u8>>, path: Seq<usize>) -> Option<Seq<u8>> {
    match root {
        Some(h) => lookup(db, h, path),
        None => None,
    }
}

/// The value stored under `key` in the trie with this node map and root.
pub open spec fn trie_get(db: Map<Seq<u8>, Seq<u8>>, root: Option<Seq<u8>>, key: Seq<u8>) -> Option<Seq<u8>> {
    lookup_from(db, root, key_path(key))
}

/// The node that an insertion starts from: the stored node, or an empty one.
pub open spec fn start_node(db: Map<Seq<u8>, Seq<u8>>, h: Option<Seq<u8>>) -> NodeView {
    match h {
        Some(h) => decode_node(db[h]).unwrap(),
        None => empty_node(),
    }
}

/// Inserting `value` at `path` below the optional node `h`: every node on
/// the path is decoded, updated, re-encoded and stored under its new hash,
/// from the bottom up. Gives the new node map and the new node's hash.
pub open spec fn insert_step(db: Map<Seq<u8>, Seq<u8>>, h: Option<Seq<u8>>, path: Seq<usize>, value: Seq<u8>) -> (Map<Seq<u8>, Seq<u8>>, Seq<u8>)
    decreases path.len(),
{
    let node = start_node(db, h);
    if path.len() == 0 {
        let n2 = NodeView { children: node.children, value: Some(value) };
        let enc = node_encoding(n2);
        (db.insert(keccak256_spec(enc), enc), keccak256_spec(enc))
    } else {
        let i = path[0] as int;
        let r = insert_step(db, node.children[i], path.drop_first(), value);
        let n2 = NodeView { children: node.children.update(i, Some(r.1)), value: node.value };
        let enc = node_encoding(n2);
        (r.0.insert(keccak256_spec(enc), enc), keccak256_spec(enc))
    }
}

/// The node that an insertion writes at the top of `path`.
pub open spec fn inserted_node(db: Map<Seq<u8>, Seq<u8>>, h: Option<Seq<u8>>, path: Seq<usize>, value: Seq<u8>) -> NodeView {
    let node = start_node(db, h);
    if path.len() == 0 {
        NodeView { children: node.children, value: Some(value) }
    } else {
        let i = path[0] as int;
        NodeView {
            children: node.children.update(i, Some(insert_step(db, node.children[i], path.drop_first(), value).1)),
            value: node.value,
        }
    }
}

/// The node map just before the insertion writes its top node.
pub open spec fn db_before_top(db: Map<Seq<u8>, Seq<u8>>, h: Option<Seq<u8>>, path: Seq<usize>, value: Seq<u8>) -> Map<Seq<u8>, Seq<u8>> {
    if path.len() == 0 {
        db
    } else {
        insert_step(db, start_node(db, h).children[path[0] as int], path.drop_first(), value).0
    }
}

/// No node that the insertion writes replaces a different node stored
/// under the same hash: the insertion meets no Keccak-256 collision.
pub open spec fn insert_fresh(db: Map<Seq<u8>, Seq<u8>>, h: Option<Seq<u8>>, path: Seq<usize>, value: Seq<u8>) -> bool
    decreases path.len(),
{
    let enc = node_encoding(inserted_node(db, h, path, value));
    let before = db_before_top(db, h, path, value);
    &&& (path.len() > 0 ==> insert_fresh(db, start_node(db, h).children[path[0] as int], path.drop_first(), value))
    &&& (before.contains_key(keccak256_spec(enc)) ==> before[keccak256_spec(enc)] == enc)
}

/// The encoded nodes met on the way from the node `h` along `path`, ending
/// with the node where the path ends.
pub open spec fn prove_from(db: Map<Seq<u8>, Seq<u8>>, h: Seq<u8>, path: Seq<usize>) -> Option<Seq<Seq<u8>>>
    decreases path.len(),
{
    if !db.contains_key(h) {
        None
    } else if path.len() == 0 {
        Some(seq![db[h]])
    } else {
        match decode_node(db[h]) {
            None => None,
            Some(n) => if path[0] < 16 {
                match n.children[path[0] as int] {
                    Some(c) => match prove_from(db, c, path.drop_first()) {
                        Some(p) => Some(seq![db[h]] + p),
                        None => None,
                    },
                    None => None,
                }
            } else {
                None
            },
        }
    }
}

/// The proof for `key` in the trie with this node map and root.
pub open spec fn trie_prove(db: Map<Seq<u8>, Seq<u8>>, root: Option<Seq<u8>>, key: Seq<u8>) -> Option<Seq<Seq<u8>>> {
    match root {
        Some(h) => prove_from(db, h, key_path(key)),
        None => None,
    }
}

/// Checking proof nodes against the expected hashes along `path`: `Some` of
/// the verdict, or `None` where a node that matches its hash does not decode
/// (where verification cannot go on).
pub open spec fn verify_walk(expected: Seq<u8>, path: Seq<usize>, value: Seq<u8>, proof: Seq<Seq<u8>>) -> Option<bool>
    decreases proof.len(),
{
    if proof.len() == 0 {
        Some(false)
    } else if keccak256_spec(proof[0]) != expected {
        Some(false)
    } else {
        match decode_node(proof[0]) {
            None => None,
            Some(n) => if path.len() == 0 {
                Some(n.value == Some(value))
            } else if path[0] < 16 {
                match n.children[path[0] as int] {
                    None => Some(false),
                    Some(c) => verify_walk(c, path.drop_first(), value, proof.drop_first()),
                }
            } else {
                None
            },
        }
    }
}

/// What verifying a proof that `key` holds `value` under `root` gives: `Some`
/// of the verdict, or `None` where a node that matches its hash does not
/// decode.
pub open spec fn verify_spec(root: Seq<u8>, key: Seq<u8>, value: Seq<u8>, proof: Seq<Seq<u8>>) -> Option<bool> {
    if proof.len() != key_path(key).len() + 1 {
        Some(false)
    } else {
        verify_walk(root, key_path(key), value, proof)
    }
}

/// The root hash of a trie: the zero hash stands for the empty trie.
pub open spec fn root_or_zero(root: Option<Seq<u8>>) -> Seq<u8> {
    match root {
        Some(h) => h,
        None => zero_hash(),
    }
}

// ---------------------------------------------------------------------------
// Lemmas on the node map.
// ---------------------------------------------------------------------------

/// Adding a well-formed entry keeps the node map well formed.
proof fn lemma_db_wf_insert(db: Map<Seq<u8>, Seq<u8>>, h: Seq<u8>, enc: Seq<u8>)
    requires
        db_wf(db),
        h.len() == 32,
        keccak256_spec(enc) == h,
        decodes_faithfully(enc),
        decode_node(enc) matches Some(n) && encodes_node(enc, n) && children_in(db, n),
    ensures
        db_wf(db.insert(h, enc)),
{
    let db2 = db.insert(h, enc);
    assert forall|k: Seq<u8>| #[trigger] db2.contains_key(k) implies entry_ok(db2, k) by {
        if k != h {
            assert(entry_ok(db, k));
            let n = decode_node(db[k]).unwrap();
            assert forall|i: int| 0 <= i < 16 implies (#[trigger] n.children[i] matches Some(c) ==> db2.contains_key(c)) by {
                if let Some(c) = n.children[i] {
                    assert(db.contains_key(c));
                }
            }
        } else {
            let n = decode_node(enc).unwrap();
            assert forall|i: int| 0 <= i < 16 implies (#[trigger] n.children[i] matches Some(c) ==> db2.contains_key(c)) by {
                if let Some(c) = n.children[i] {
                    assert(db.contains_key(c));
                }
            }
        }
    }
}

/// Adding an entry whose node holds a value satisfying `p` keeps `p` on all values.
proof fn lemma_values_insert(db: Map<Seq<u8>, Seq<u8>>, h: Seq<u8>, enc: Seq<u8>, p: spec_fn(Seq<u8>) -> bool)
    requires
        values_satisfy(db, p),
        decode_node(enc) matches Some(n) ==> (n.value matches Some(v) ==> p(v)),
    ensures
        values_satisfy(db.insert(h, enc), p),
{
    let db2 = db.insert(h, enc);
    assert forall|k: Seq<u8>| #[trigger] db2.contains_key(k) implies (decode_node(db2[k]) matches Some(n) ==> (
        n.value matches Some(v) ==> p(v))) by {
        if k != h {
            assert(db.contains_key(k));
        }
    }
}

// ---------------------------------------------------------------------------
// The trie.
// ---------------------------------------------------------------------------

/// A Merkle radix trie: a content-addressed node store and the root's hash.
#[derive(Clone)]
pub struct MerkleRadixTrie {
    db: NodeDb,
    root: Option<crate::types::Hash>,
}

impl MerkleRadixTrie {
    /// The stored nodes: hash to encoded node.
    pub closed spec fn nodes(&self) -> Map<Seq<u8>, Seq<u8>> {
        self.db@
    }

    /// The root's hash, or `None` for the empty trie.
    pub closed spec fn root_ref(&self) -> Option<Seq<u8>> {
        opt_hash_view(self.root)
    }

    /// The store is consistent, every stored node is well formed, and the root is stored.
    pub closed spec fn wf(&self) -> bool {
        &&& self.db.wf()
        &&& db_wf(self.db@)
        &&& self.root matches Some(r) ==> self.db@.contains_key(r@)
    }

    /// The value stored under `key`.
    pub open spec fn get_spec(&self, key: Seq<u8>) -> Option<Seq<u8>> {
        trie_get(self.nodes(), self.root_ref(), key)
    }

    /// An empty trie.
    pub fn new() -> (trie: Self)
        ensures
            trie.wf(),
            trie.nodes() == Map::<Seq<u8>, Seq<u8>>::empty(),
            trie.root_ref() is None,
    {
        MerkleRadixTrie { db: NodeDb::new(), root: None }
    }

    /// The current root hash; the empty trie has the zero hash.
    pub fn root_hash(&self) -> (hash: crate::types::Hash)
        ensures
            hash@ == root_or_zero(self.root_ref()),
    {
        match self.root {
            Some(h) => h,
            None => zero_hash_value(),
        }
    }

    /// Inserts by walking the key nibble by nibble and rebuilding hashes upward.
    pub fn insert(&mut self, key: &[u8], value: Vec<u8>)
        requires
            old(self).wf(),
            value@.len() <= MAX_ITEM_LEN,
        ensures
            final(self).wf(),
            final(self).nodes() == insert_step(old(self).nodes(), old(self).root_ref(), key_path(key@), value@).0,
            final(self).root_ref() == Some(insert_step(old(self).nodes(), old(self).root_ref(), key_path(key@), value@).1),
            forall|k: Seq<u8>| old(self).nodes().contains_key(k) ==> #[trigger] final(self).nodes().contains_key(k),
            forall|p: spec_fn(Seq<u8>) -> bool|
                values_satisfy(old(self).nodes(), p) && p(value@) ==> #[trigger] values_satisfy(final(self).nodes(), p),
    {
        let nibbles = bytes_to_nibbles(key);
        proof {
            crate::nibbles::lemma_key_nibbles_are_nibbles(key@);
            assert forall|i: int| 0 <= i < nibbles@.len() implies nibbles@[i] < 16 by {
                assert(crate::nibbles::key_nibbles(key@)[i] < 16);
            }
            assert(nibbles@.subrange(0, nibbles@.len() as int) =~= nibbles@);
        }
        let new_root = self.insert_at(self.root, &nibbles, 0, value.as_slice());
        self.root = Some(new_root);
    }

    fn insert_at(&mut self, node_hash: Option<crate::types::Hash>, nibbles: &Vec<usize>, depth: usize, value: &[u8]) -> (hash: crate::types::Hash)
        requires
            old(self).db.wf(),
            db_wf(old(self).db@),
            node_hash matches Some(h) ==> old(self).db@.contains_key(h@),
            depth <= nibbles@.len(),
            forall|i: int| 0 <= i < nibbles@.len() ==> nibbles@[i] < 16,
            value@.len() <= MAX_ITEM_LEN,
        ensures
            final(self).db.wf(),
            db_wf(final(self).db@),
            final(self).root == old(self).root,
            final(self).db@ == insert_step(old(self).db@, opt_hash_view(node_hash), nibbles@.subrange(depth as int, nibbles@.len() as int), value@).0,
            hash@ == insert_step(old(self).db@, opt_hash_view(node_hash), nibbles@.subrange(depth as int, nibbles@.len() as int), value@).1,
            final(self).db@.contains_key(hash@),
            forall|k: Seq<u8>| old(self).db@.contains_key(k) ==> #[trigger] final(self).db@.contains_key(k),
            forall|p: spec_fn(Seq<u8>) -> bool|
                values_satisfy(old(self).db@, p) && p(value@) ==> #[trigger] values_satisfy(final(self).db@, p),
        decreases nibbles@.len() - depth,
    {
        let ghost old_db = self.db@;
        let ghost path = nibbles@.subrange(depth as int, nibbles@.len() as int);
        let ghost hview = opt_hash_view(node_hash);
        let mut node = match node_hash {
            Some(hash) => {
                let encoded = self.db.get(&hash).unwrap();
                assert(entry_ok(old_db, hash@));
                BranchNode::decode(encoded.as_slice())
            },
            None => BranchNode::new(),
        };
        let ghost node0 = node@;
        assert(node0 == start_node(old_db, hview));
        proof {
            if let Some(h) = hview {
                assert(entry_ok(old_db, h));
            }
        }
        assert(node_shape_ok(node0));
        assert(children_in(old_db, node0));
        if depth == nibbles.len() {
            node.value = Some(vstd::slice::slice_to_vec(value));
            assert(node@.children =~= node0.children);
        } else {
            let index = nibbles[depth];
            let old_child = node.children[index];
            assert(opt_hash_view(old_child) == node0.children[index as int]);
            assert(path.drop_first() =~= nibbles@.subrange(depth + 1, nibbles@.len() as int));
            let new_child = self.insert_at(old_child, nibbles, depth + 1, value);
            node.children[index] = Some(new_child);
            assert(node@.children =~= node0.children.update(index as int, Some(new_child@)));
        }
        let ghost db1 = self.db@;
        let ghost n2 = node@;
        assert(n2 == inserted_node(old_db, hview, path, value@));
        assert(db1 == db_before_top(old_db, hview, path, value@));
        assert(node_shape_ok(n2));
        assert(children_in(db1, n2)) by {
            assert forall|i: int| 0 <= i < 16 implies (#[trigger] n2.children[i] matches Some(c) ==> db1.contains_key(c)) by {
                if let Some(c) = n2.children[i] {
                    if depth < nibbles@.len() && i == nibbles@[depth as int] {
                    } else {
                        assert(n2.children[i] == node0.children[i]);
                        assert(old_db.contains_key(c));
                    }
                }
            }
        }
        let encoded = node.encode();
        let hash = keccak256(encoded.as_slice());
        proof {
            lemma_normalized_encoding(n2);
            assert(encodes_node(encoded@, normalized(n2)));
            assert(children_in(db1, normalized(n2)));
            lemma_db_wf_insert(db1, hash@, encoded@);
            assert forall|p: spec_fn(Seq<u8>) -> bool| values_satisfy(old_db, p) && p(value@) implies #[trigger] values_satisfy(db1.insert(hash@, encoded@), p) by {
                assert(values_satisfy(db1, p));
                if let Some(h) = hview {
                    assert(old_db.contains_key(h));
                }
                lemma_values_insert(db1, hash@, encoded@, p);
            }
        }
        self.db.insert(hash, encoded);
        hash
    }

    /// Looks up a value by following the child hash selected by each key nibble.
    pub fn get(&self, key: &[u8]) -> (value: Option<Vec<u8>>)
        requires
            self.wf(),
        ensures
            opt_bytes(value) == self.get_spec(key@),
    {
        let nibbles = bytes_to_nibbles(key);
        proof {
            crate::nibbles::lemma_key_nibbles_are_nibbles(key@);
        }
        let mut current = match self.root {
            Some(h) => h,
            None => {
                return None;
            },
        };
        assert(nibbles@.subrange(0, nibbles@.len() as int) =~= nibbles@);
        let mut i: usize = 0;
        while i < nibbles.len()
            invariant
                self.wf(),
                i <= nibbles@.len(),
                nibbles@ == key_path(key@),
                crate::nibbles::all_nibbles(crate::nibbles::key_nibbles(key@)),
                self.db@.contains_key(current@),
                self.get_spec(key@) == lookup(self.db@, current@, nibbles@.subrange(i as int, nibbles@.len() as int)),
            decreases nibbles@.len() - i,
        {
            let encoded = self.db.get(&current).unwrap();
            assert(entry_ok(self.db@, current@));
            let node = BranchNode::decode(encoded.as_slice());
            let nibble = nibbles[i];
            assert(crate::nibbles::key_nibbles(key@)[i as int] < 16);
            assert(nibbles@.subrange(i as int, nibbles@.len() as int).drop_first() =~= nibbles@.subrange(i + 1, nibbles@.len() as int));
            match node.children[nibble] {
                Some(child) => {
                    assert(opt_hash_view(node.children@[nibble as int]) == node@.children[nibble as int]);
                    current = child;
                },
                None => {
                    assert(opt_hash_view(node.children@[nibble as int]) == node@.children[nibble as int]);
                    return None;
                },
            }
            i = i + 1;
        }
        let encoded = self.db.get(&current).unwrap();
        assert(entry_ok(self.db@, current@));
        let node = BranchNode::decode(encoded.as_slice());
        node.value
    }

    /// Returns every encoded node on the path from the root to the key's node.
    pub fn prove(&self, key: &[u8]) -> (nodes_on_path: Option<Vec<Vec<u8>>>)
        requires
            self.wf(),
        ensures
            match nodes_on_path {
                Some(p) => trie_prove(self.nodes(), self.root_ref(), key@) == Some(p.deep_view()),
                None => trie_prove(self.nodes(), self.root_ref(), key@) is None,
            },
    {
        let nibbles = bytes_to_nibbles(key);
        proof {
            crate::nibbles::lemma_key_nibbles_are_nibbles(key@);
        }
        let mut collected: Vec<Vec<u8>> = Vec::new();
        let mut current = match self.root {
            Some(h) => h,
            None => {
                return None;
            },
        };
        assert(nibbles@.subrange(0, nibbles@.len() as int) =~= nibbles@);
        let mut i: usize = 0;
        while i < nibbles.len()
            invariant
                self.wf(),
                i <= nibbles@.len(),
                nibbles@ == key_path(key@),
                crate::nibbles::all_nibbles(crate::nibbles::key_nibbles(key@)),
                self.db@.contains_key(current@),
                trie_prove(self.nodes(), self.root_ref(), key@) == (match prove_from(self.db@, current@, nibbles@.subrange(i as int, nibbles@.len() as int)) {
                    Some(rest) => Some(collected.deep_view() + rest),
                    None => None,
                }),
            decreases nibbles@.len() - i,
        {
            let encoded = self.db.get(&current).unwrap();
            assert(entry_ok(self.db@, current@));
            let node = BranchNode::decode(encoded.as_slice());
            let ghost before = collected.deep_view();
            let pushed = vstd::slice::slice_to_vec(encoded.as_slice());
            assert(pushed.deep_view() =~= pushed@);
            collected.push(pushed);
            assert(collected.deep_view() =~= before + seq![self.db@[current@]]);
            let nibble = nibbles[i];
            assert(crate::nibbles::key_nibbles(key@)[i as int] < 16);
            let ghost rest = nibbles@.subrange(i as int, nibbles@.len() as int);
            assert(rest.drop_first() =~= nibbles@.subrange(i + 1, nibbles@.len() as int));
            match node.children[nibble] {
                Some(child) => {
                    assert(opt_hash_view(node.children@[nibble as int]) == node@.children[nibble as int]);
                    proof {
                        match prove_from(self.db@, child@, rest.drop_first()) {
                            Some(p) => {
                                assert(before + (seq![self.db@[current@]] + p) =~= collected.deep_view() + p);
                            },
                            None => {},
                        }
                    }
                    current = child;
                },
                None => {
                    assert(opt_hash_view(node.children@[nibble as int]) == node@.children[nibble as int]);
                    return None;
                },
            }
            i = i + 1;
        }
        let encoded = self.db.get(&current).unwrap();
        let ghost before = collected.deep_view();
        let pushed = vstd::slice::slice_to_vec(encoded.as_slice());
        assert(pushed.deep_view() =~= pushed@);
        collected.push(pushed);
        assert(collected.deep_view() =~= before + seq![self.db@[current@]]);
        Some(collected)
    }
}


/// Checks that a proof connects `root` to `key` holding `expected_value`;
/// `None` where a proof node matches its expected hash but is not a branch node.
pub fn check_proof(root: crate::types::Hash, key: &[u8], expected_value: &[u8], proof_nodes: &[Vec<u8>]) -> (verdict: Option<bool>)
    ensures
        verdict == verify_spec(root@, key@, expected_value@, proof_nodes.deep_view()),
{
    let nibbles = bytes_to_nibbles(key);
    proof {
        crate::nibbles::lemma_key_nibbles_are_nibbles(key@);
    }
    let ghost pv = proof_nodes.deep_view();
    // This trie has one branch node per nibble plus the node that holds the value.
    if proof_nodes.len() == 0 || proof_nodes.len() - 1 != nibbles.len() {
        return Some(false);
    }
    let mut expected_hash = root;
    let mut depth: usize = 0;
    assert(nibbles@.subrange(0, nibbles@.len() as int) =~= nibbles@);
    assert(pv.subrange(0, pv.len() as int) =~= pv);
    while depth < proof_nodes.len()
        invariant
            nibbles@ == key_path(key@),
            crate::nibbles::all_nibbles(crate::nibbles::key_nibbles(key@)),
            pv == proof_nodes.deep_view(),
            pv.len() == nibbles@.len() + 1,
            depth <= pv.len(),
            depth <= nibbles@.len() || depth == pv.len(),
            verify_spec(root@, key@, expected_value@, pv) == verify_walk(expected_hash@, nibbles@.subrange(depth as int, nibbles@.len() as int), expected_value@, pv.subrange(depth as int, pv.len() as int)),
        decreases pv.len() - depth,
    {
        let encoded_node = &proof_nodes[depth];
        assert(pv[depth as int] == encoded_node@);
        let ghost rest = pv.subrange(depth as int, pv.len() as int);
        assert(rest[0] == encoded_node@);
        let actual_hash = keccak256(encoded_node.as_slice());
        // Each proof node must hash to the reference that its parent holds.
        if !hash_eq(&expected_hash, &actual_hash) {
            return Some(false);
        }
        let node = match BranchNode::try_decode(encoded_node.as_slice()) {
            Some(node) => node,
            None => {
                return None;
            },
        };
        if depth == nibbles.len() {
            return match &node.value {
                Some(v) => Some(bytes_eq(v.as_slice(), expected_value)),
                None => Some(false),
            };
        }
        let nibble = nibbles[depth];
        assert(crate::nibbles::key_nibbles(key@)[depth as int] < 16);
        assert(nibbles@.subrange(depth as int, nibbles@.len() as int).drop_first() =~= nibbles@.subrange(depth + 1, nibbles@.len() as int));
        assert(rest.drop_first() =~= pv.subrange(depth + 1, pv.len() as int));
        assert(opt_hash_view(node.children@[nibble as int]) == node@.children[nibble as int]);
        match node.children[nibble] {
            None => {
                return Some(false);
            },
            Some(child_hash) => {
                expected_hash = child_hash;
            },
        }
        depth = depth + 1;
    }
    Some(false)
}

/// Verifies that a proof connects `root` to `key` holding `expected_value`.
/// Only for proofs in which every node that matches its expected hash is a
/// branch node (`check_proof` answers `None` for the others).
pub fn verify_proof(root: crate::types::Hash, key: &[u8], expected_value: &[u8], proof_nodes: &[Vec<u8>]) -> (valid: bool)
    requires
        verify_spec(root@, key@, expected_value@, proof_nodes.deep_view()) is Some,
    ensures
        Some(valid) == verify_spec(root@, key@, expected_value@, proof_nodes.deep_view()),
{
    check_proof(root, key, expected_value, proof_nodes).unwrap()
}


// ---------------------------------------------------------------------------
// Laws.
// ---------------------------------------------------------------------------

/// `b` holds every entry of `a`.
pub open spec fn extends(a: Map<Seq<u8>, Seq<u8>>, b: Map<Seq<u8>, Seq<u8>>) -> bool {
    forall|k: Seq<u8>| #[trigger] a.contains_key(k) ==> b.contains_key(k) && b[k] == a[k]
}

/// Following a path gives the same value in a larger node map.
proof fn lemma_lookup_extends(db: Map<Seq<u8>, Seq<u8>>, d2: Map<Seq<u8>, Seq<u8>>, h: Seq<u8>, q: Seq<usize>)
    requires
        db_wf(db),
        extends(db, d2),
        db.contains_key(h),
    ensures
        lookup(d2, h, q) == lookup(db, h, q),
    decreases q.len(),
{
    assert(entry_ok(db, h));
    assert(d2[h] == db[h]);
    if q.len() > 0 && q[0] < 16 {
        let n = decode_node(db[h]).unwrap();
        if let Some(c) = n.children[q[0] as int] {
            assert(db.contains_key(c));
            lemma_lookup_extends(db, d2, c, q.drop_first());
        }
    }
}

/// An insertion that meets no collision keeps every entry that was stored.
proof fn lemma_insert_fresh_extends(db: Map<Seq<u8>, Seq<u8>>, h: Option<Seq<u8>>, path: Seq<usize>, value: Seq<u8>)
    requires
        insert_fresh(db, h, path, value),
    ensures
        extends(db, insert_step(db, h, path, value).0),
        extends(db_before_top(db, h, path, value), insert_step(db, h, path, value).0),
    decreases path.len(),
{
    let before = db_before_top(db, h, path, value);
    let after = insert_step(db, h, path, value).0;
    if path.len() > 0 {
        lemma_insert_fresh_extends(db, start_node(db, h).children[path[0] as int], path.drop_first(), value);
    }
    assert(extends(db, before));
    assert(extends(before, after));
}

/// The value found along `q` from an optional node.
pub open spec fn lookup_opt(db: Map<Seq<u8>, Seq<u8>>, h: Option<Seq<u8>>, q: Seq<usize>) -> Option<Seq<u8>> {
    match h {
        Some(h) => lookup(db, h, q),
        None => None,
    }
}

/// After an insertion without collisions, the new node gives the inserted
/// value along the inserted path and what the old node gave along any other
/// path, read in any well-formed node map that holds the result.
proof fn lemma_insert_lookup(db: Map<Seq<u8>, Seq<u8>>, h: Option<Seq<u8>>, path: Seq<usize>, value: Seq<u8>, d: Map<Seq<u8>, Seq<u8>>, q: Seq<usize>)
    requires
        db_wf(db),
        h matches Some(h) ==> db.contains_key(h),
        forall|i: int| 0 <= i < path.len() ==> path[i] < 16,
        value.len() <= MAX_ITEM_LEN,
        insert_fresh(db, h, path, value),
        db_wf(d),
        extends(insert_step(db, h, path, value).0, d),
    ensures
        lookup(d, insert_step(db, h, path, value).1, q) == (if q == path {
            nonempty(value)
        } else {
            lookup_opt(db, h, q)
        }),
        d.contains_key(insert_step(db, h, path, value).1),
        decode_node(d[insert_step(db, h, path, value).1]) == Some(normalized(inserted_node(db, h, path, value))),
        extends(db, d),
    decreases path.len(),
{
    let r = insert_step(db, h, path, value);
    let hf = r.1;
    let n0 = start_node(db, h);
    let n2 = inserted_node(db, h, path, value);
    let enc = node_encoding(n2);
    let before = db_before_top(db, h, path, value);
    lemma_insert_fresh_extends(db, h, path, value);
    assert(r.0 == before.insert(hf, enc));
    assert(hf == keccak256_spec(enc));
    assert(r.0.contains_key(hf));
    assert(d.contains_key(hf) && d[hf] == enc);
    assert(entry_ok(d, hf));
    if let Some(hh) = h {
        assert(entry_ok(db, hh));
    }
    assert(node_shape_ok(n0));
    assert(children_in(db, n0));
    // The top node is well shaped: a new child hash is a stored key, so 32 bytes long.
    if path.len() > 0 {
        let i = path[0] as int;
        let rc = insert_step(db, n0.children[i], path.drop_first(), value);
        assert(rc.0 == before);
        assert(extends(before, r.0));
        assert(before.contains_key(rc.1)) by {
            let n2c = inserted_node(db, n0.children[i], path.drop_first(), value);
            let encc = node_encoding(n2c);
            assert(rc.0 == db_before_top(db, n0.children[i], path.drop_first(), value).insert(keccak256_spec(encc), encc));
        }
        assert(d.contains_key(rc.1));
        assert(entry_ok(d, rc.1));
        assert forall|j: int| 0 <= j < 16 implies (#[trigger] n2.children[j] matches Some(c) ==> c.len() == 32) by {
            if j != i {
                assert(n2.children[j] == n0.children[j]);
            }
        }
    }
    assert(node_shape_ok(n2));
    assert(encodes_node(d[hf], n2));
    assert(decode_node(d[hf]) == Some(normalized(n2)));
    let m = normalized(n2);
    assert(extends(db, d));
    assert(lookup(d, hf, q) == (if q.len() == 0 {
        m.value
    } else if q[0] < 16 {
        match m.children[q[0] as int] {
            Some(c) => lookup(d, c, q.drop_first()),
            None => None,
        }
    } else {
        None
    }));
    if q.len() == 0 {
        if path.len() == 0 {
            assert(q =~= path);
        } else {
            assert(q != path);
            if let Some(hh) = h {
                let nd = decode_node(db[hh]).unwrap();
                assert(nd == n0);
                assert(normalized(nd) == nd);
            }
        }
    } else if q[0] >= 16 {
        if let Some(hh) = h {
            assert(db.contains_key(hh));
        }
    } else {
        let qi = q[0] as int;
        if path.len() > 0 && qi == path[0] as int {
            let c = n0.children[qi];
            let rc = insert_step(db, c, path.drop_first(), value);
            assert(m.children[qi] == Some(rc.1));
            assert(extends(rc.0, d)) by {
                assert(rc.0 == before);
                assert(extends(before, r.0));
            }
            if let Some(cc) = c {
                assert(db.contains_key(cc));
            }
            lemma_insert_lookup(db, c, path.drop_first(), value, d, q.drop_first());
            assert((q == path) == (q.drop_first() == path.drop_first())) by {
                if q.drop_first() == path.drop_first() {
                    assert(q =~= seq![q[0]] + q.drop_first());
                    assert(path =~= seq![path[0]] + path.drop_first());
                }
            }
            if let Some(hh) = h {
                assert(db.contains_key(hh));
            }
        } else {
            assert(q != path);
            assert(m.children[qi] == n0.children[qi]);
            if let Some(c) = n0.children[qi] {
                assert(db.contains_key(c));
                lemma_lookup_extends(db, d, c, q.drop_first());
            }
            if let Some(hh) = h {
                assert(db.contains_key(hh));
            }
        }
    }
}

/// Reading after a write, on node maps: once `value` is inserted under
/// `key` (meeting no Keccak-256 collision), `key` reads `value` (nothing, for
/// an empty value, which encodes as an absent one) and every other key reads
/// what it read before.
pub proof fn lemma_insert_then_lookup(db: Map<Seq<u8>, Seq<u8>>, root: Option<Seq<u8>>, db2: Map<Seq<u8>, Seq<u8>>, key: Seq<u8>, value: Seq<u8>)
    requires
        db_wf(db),
        root matches Some(r) ==> db.contains_key(r),
        db_wf(db2),
        db2 == insert_step(db, root, key_path(key), value).0,
        value.len() <= MAX_ITEM_LEN,
        insert_fresh(db, root, key_path(key), value),
    ensures
        forall|k: Seq<u8>| #[trigger] trie_get(db2, Some(insert_step(db, root, key_path(key), value).1), k) == (if k == key {
            nonempty(value)
        } else {
            trie_get(db, root, k)
        }),
{
    crate::nibbles::lemma_key_nibbles_are_nibbles(key);
    let path = key_path(key);
    assert forall|i: int| 0 <= i < path.len() implies path[i] < 16 by {
        assert(crate::nibbles::key_nibbles(key)[i] < 16);
    }
    assert forall|k: Seq<u8>| #[trigger] trie_get(db2, Some(insert_step(db, root, key_path(key), value).1), k) == (if k == key {
        nonempty(value)
    } else {
        trie_get(db, root, k)
    }) by {
        lemma_insert_lookup(db, root, path, value, db2, key_path(k));
        if key_path(k) == path {
            crate::nibbles::lemma_key_path_injective(k, key);
        }
    }
}

/// Reading after a write: once `value` is inserted under `key` (meeting no
/// Keccak-256 collision), `key` reads `value` (nothing, for an empty value,
/// which encodes as an absent one) and every other key reads what it read before.
pub proof fn lemma_insert_then_get(t: MerkleRadixTrie, t2: MerkleRadixTrie, key: Seq<u8>, value: Seq<u8>)
    requires
        t.wf(),
        t2.wf(),
        t2.nodes() == insert_step(t.nodes(), t.root_ref(), key_path(key), value).0,
        t2.root_ref() == Some(insert_step(t.nodes(), t.root_ref(), key_path(key), value).1),
        value.len() <= MAX_ITEM_LEN,
        insert_fresh(t.nodes(), t.root_ref(), key_path(key), value),
    ensures
        forall|k: Seq<u8>| #[trigger] t2.get_spec(k) == (if k == key {
            nonempty(value)
        } else {
            t.get_spec(k)
        }),
{
    if let Some(r) = t.root_ref() {
        assert(t.root matches Some(rr) && rr@ == r);
    }
    lemma_insert_then_lookup(t.nodes(), t.root_ref(), t2.nodes(), key, value);
    assert forall|k: Seq<u8>| #[trigger] t2.get_spec(k) == (if k == key {
        nonempty(value)
    } else {
        t.get_spec(k)
    }) by {
        assert(trie_get(t2.nodes(), Some(insert_step(t.nodes(), t.root_ref(), key_path(key), value).1), k) == t2.get_spec(k));
    }
}

/// A well-formed trie has a well-formed node map whose root is stored.
pub proof fn lemma_trie_wf_nodes(t: MerkleRadixTrie)
    requires
        t.wf(),
    ensures
        db_wf(t.nodes()),
        t.root_ref() matches Some(r) ==> t.nodes().contains_key(r),
{
}

/// Writing back the value a key already holds changes neither the stored
/// nodes nor the node's hash.
proof fn lemma_insert_existing(db: Map<Seq<u8>, Seq<u8>>, h: Seq<u8>, path: Seq<usize>, value: Seq<u8>)
    requires
        db_wf(db),
        db.contains_key(h),
        lookup(db, h, path) == Some(value),
    ensures
        insert_step(db, Some(h), path, value) == (db, h),
    decreases path.len(),
{
    assert(entry_ok(db, h));
    let n = decode_node(db[h]).unwrap();
    let n2 = inserted_node(db, Some(h), path, value);
    if path.len() > 0 {
        let i = path[0] as int;
        let c = n.children[i].unwrap();
        assert(db.contains_key(c));
        lemma_insert_existing(db, c, path.drop_first(), value);
        assert(n2.children =~= n.children);
    } else {
        assert(n2.children =~= n.children);
    }
    assert(n2 == n);
    assert(db.insert(h, db[h]) =~= db);
}

/// Writing back the value a key already holds leaves the trie as it was: the
/// same nodes and the same root hash.
pub proof fn lemma_rewrite_keeps_trie(t: MerkleRadixTrie, key: Seq<u8>, value: Seq<u8>)
    requires
        t.wf(),
        t.get_spec(key) == Some(value),
    ensures
        insert_step(t.nodes(), t.root_ref(), key_path(key), value) == (t.nodes(), t.root_ref().unwrap()),
{
    let r = t.root_ref().unwrap();
    assert(t.root matches Some(rr) && rr@ == r);
    lemma_insert_existing(t.nodes(), r, key_path(key), value);
}

/// A proof built by `prove` verifies, and its verdict is whether the key holds the value.
proof fn lemma_prove_walk(db: Map<Seq<u8>, Seq<u8>>, h: Seq<u8>, path: Seq<usize>, value: Seq<u8>)
    requires
        db_wf(db),
        db.contains_key(h),
    ensures
        prove_from(db, h, path) matches Some(p) ==> p.len() == path.len() + 1 && p[0] == db[h] && verify_walk(h, path, value, p) == Some(lookup(db, h, path) == Some(value)),
        lookup(db, h, path) is Some ==> prove_from(db, h, path) is Some,
    decreases path.len(),
{
    assert(entry_ok(db, h));
    if path.len() > 0 && path[0] < 16 {
        let n = decode_node(db[h]).unwrap();
        if let Some(c) = n.children[path[0] as int] {
            assert(db.contains_key(c));
            lemma_prove_walk(db, c, path.drop_first(), value);
            if let Some(p) = prove_from(db, c, path.drop_first()) {
                let full = seq![db[h]] + p;
                assert(full[0] == db[h]);
                assert(full.drop_first() =~= p);
            }
        }
    }
}

/// Completeness and soundness of proofs on a well-formed trie: every key
/// that holds a value has a proof, the empty trie has none, and the proof
/// that `prove` returns for a key has one node per nibble plus the last, its
/// first node hashes to the root hash, and it verifies against the root hash
/// exactly when the key holds the value asked about.
pub proof fn lemma_prove_then_verify(t: MerkleRadixTrie, key: Seq<u8>, value: Seq<u8>)
    requires
        t.wf(),
    ensures
        trie_prove(t.nodes(), t.root_ref(), key) matches Some(p) ==> p.len() == 2 * key.len() + 1
            && keccak256_spec(p[0]) == root_or_zero(t.root_ref())
            && verify_spec(root_or_zero(t.root_ref()), key, value, p) == Some(t.get_spec(key) == Some(value)),
        t.get_spec(key) is Some ==> trie_prove(t.nodes(), t.root_ref(), key) is Some,
        t.root_ref() is None ==> trie_prove(t.nodes(), t.root_ref(), key) is None,
{
    if let Some(r) = t.root_ref() {
        assert(t.root matches Some(rr) && rr@ == r);
        lemma_prove_walk(t.nodes(), r, key_path(key), value);
        assert(entry_ok(t.nodes(), r));
    }
}


/// Every value found by a lookup is a stored node's value, so it satisfies
/// whatever all stored values satisfy.
pub proof fn lemma_lookup_value_satisfies(db: Map<Seq<u8>, Seq<u8>>, h: Seq<u8>, q: Seq<usize>, p: spec_fn(Seq<u8>) -> bool)
    requires
        db_wf(db),
        values_satisfy(db, p),
    ensures
        lookup(db, h, q) matches Some(v) ==> p(v),
    decreases q.len(),
{
    if db.contains_key(h) {
        assert(entry_ok(db, h));
        if q.len() > 0 && q[0] < 16 {
            let n = decode_node(db[h]).unwrap();
            if let Some(c) = n.children[q[0] as int] {
                lemma_lookup_value_satisfies(db, c, q.drop_first(), p);
            }
        }
    }
}

/// Every value that `get` returns on a well-formed trie satisfies whatever
/// all stored values satisfy.
pub proof fn lemma_get_value_satisfies(t: MerkleRadixTrie, key: Seq<u8>, p: spec_fn(Seq<u8>) -> bool)
    requires
        t.wf(),
        values_satisfy(t.nodes(), p),
    ensures
        t.get_spec(key) matches Some(v) ==> p(v),
{
    if let Some(r) = t.root_ref() {
        lemma_lookup_value_satisfies(t.nodes(), r, key_path(key), p);
    }
}

/// Inserting never removes or rewrites a stored node: after `insert`
/// (meeting no Keccak-256 collision) every node stored before is still
/// stored under the same hash with the same bytes, so older roots stay
/// readable, and every stored node is stored under its own hash.
pub proof fn lemma_insert_keeps_nodes(t: MerkleRadixTrie, t2: MerkleRadixTrie, key: Seq<u8>, value: Seq<u8>)
    requires
        t.wf(),
        t2.wf(),
        t2.nodes() == insert_step(t.nodes(), t.root_ref(), key_path(key), value).0,
        insert_fresh(t.nodes(), t.root_ref(), key_path(key), value),
    ensures
        extends(t.nodes(), t2.nodes()),
        forall|h: Seq<u8>| #[trigger] t2.nodes().contains_key(h) ==> keccak256_spec(t2.nodes()[h]) == h,
{
    lemma_insert_fresh_extends(t.nodes(), t.root_ref(), key_path(key), value);
    assert forall|h: Seq<u8>| #[trigger] t2.nodes().contains_key(h) implies keccak256_spec(t2.nodes()[h]) == h by {
        assert(entry_ok(t2.nodes(), h));
    }
}

/// Every path of `k` nibbles from the node stored under `h` that follows
/// stored children ends at a node that holds a value.
pub open spec fn full_depth(db: Map<Seq<u8>, Seq<u8>>, h: Seq<u8>, k: nat) -> bool
    decreases k,
{
    db.contains_key(h) && match decode_node(db[h]) {
        None => false,
        Some(n) => if k == 0 {
            n.value is Some
        } else {
            forall|i: int| 0 <= i < 16 ==> (#[trigger] n.children[i] matches Some(c) ==> full_depth(db, c, (k - 1) as nat))
        },
    }
}

/// Every path of `k` nibbles through the trie ends at a value: what a trie
/// whose keys all have `k` nibbles satisfies.
pub open spec fn full_trie(t: MerkleRadixTrie, k: nat) -> bool {
    t.root_ref() matches Some(r) ==> full_depth(t.nodes(), r, k)
}

/// A node map that holds every entry keeps every full path.
proof fn lemma_full_depth_extends(db: Map<Seq<u8>, Seq<u8>>, d: Map<Seq<u8>, Seq<u8>>, h: Seq<u8>, k: nat)
    requires
        extends(db, d),
        full_depth(db, h, k),
    ensures
        full_depth(d, h, k),
    decreases k,
{
    if k > 0 {
        let n = decode_node(db[h]).unwrap();
        assert forall|i: int| 0 <= i < 16 implies (#[trigger] n.children[i] matches Some(c) ==> full_depth(d, c, (k - 1) as nat)) by {
            if let Some(c) = n.children[i] {
                lemma_full_depth_extends(db, d, c, (k - 1) as nat);
            }
        }
    }
}

/// Along a full path, a proof exists only where a value is found.
proof fn lemma_full_prove_lookup(db: Map<Seq<u8>, Seq<u8>>, h: Seq<u8>, path: Seq<usize>)
    requires
        full_depth(db, h, path.len()),
        forall|i: int| 0 <= i < path.len() ==> path[i] < 16,
        prove_from(db, h, path) is Some,
    ensures
        lookup(db, h, path) is Some,
    decreases path.len(),
{
    if path.len() > 0 {
        let n = decode_node(db[h]).unwrap();
        let c = n.children[path[0] as int].unwrap();
        assert(full_depth(db, c, (path.len() - 1) as nat));
        lemma_full_prove_lookup(db, c, path.drop_first());
    }
}

/// An insertion of a non-empty value along a path of `k` nibbles (meeting no
/// Keccak-256 collision) keeps every path of `k` nibbles full.
proof fn lemma_insert_full(db: Map<Seq<u8>, Seq<u8>>, h: Option<Seq<u8>>, path: Seq<usize>, value: Seq<u8>, d: Map<Seq<u8>, Seq<u8>>)
    requires
        db_wf(db),
        h matches Some(h) ==> db.contains_key(h) && full_depth(db, h, path.len()),
        forall|i: int| 0 <= i < path.len() ==> path[i] < 16,
        0 < value.len() <= MAX_ITEM_LEN,
        insert_fresh(db, h, path, value),
        db_wf(d),
        extends(insert_step(db, h, path, value).0, d),
    ensures
        full_depth(d, insert_step(db, h, path, value).1, path.len()),
    decreases path.len(),
{
    let r = insert_step(db, h, path, value);
    let n0 = start_node(db, h);
    let n2 = inserted_node(db, h, path, value);
    lemma_insert_lookup(db, h, path, value, d, path);
    let m = normalized(n2);
    assert(decode_node(d[r.1]) == Some(m));
    if path.len() > 0 {
        let i = path[0] as int;
        let rc = insert_step(db, n0.children[i], path.drop_first(), value);
        lemma_insert_fresh_extends(db, h, path, value);
        assert(extends(rc.0, d)) by {
            assert(rc.0 == db_before_top(db, h, path, value));
        }
        if let Some(cc) = n0.children[i] {
            assert(full_depth(db, cc, (path.len() - 1) as nat));
            assert(entry_ok(db, h.unwrap()));
        }
        lemma_insert_full(db, n0.children[i], path.drop_first(), value, d);
        assert forall|j: int| 0 <= j < 16 implies (#[trigger] m.children[j] matches Some(c) ==> full_depth(d, c, (path.len() - 1) as nat)) by {
            if j != i {
                if let Some(c) = m.children[j] {
                    assert(n0.children[j] == Some(c));
                    assert(h is Some);
                    assert(full_depth(db, c, (path.len() - 1) as nat));
                    lemma_full_depth_extends(db, d, c, (path.len() - 1) as nat);
                }
            }
        }
    }
}

/// Proofs exist exactly for the keys that hold a value, in a trie whose
/// paths of the key's length are all full.
pub proof fn lemma_full_prove_iff_get(t: MerkleRadixTrie, key: Seq<u8>)
    requires
        t.wf(),
        full_trie(t, key_path(key).len()),
    ensures
        (trie_prove(t.nodes(), t.root_ref(), key) is Some) == (t.get_spec(key) is Some),
{
    lemma_prove_then_verify(t, key, Seq::empty());
    if let Some(r) = t.root_ref() {
        crate::nibbles::lemma_key_nibbles_are_nibbles(key);
        let path = key_path(key);
        assert forall|i: int| 0 <= i < path.len() implies path[i] < 16 by {
            assert(crate::nibbles::key_nibbles(key)[i] < 16);
        }
        if trie_prove(t.nodes(), t.root_ref(), key) is Some {
            lemma_full_prove_lookup(t.nodes(), r, path);
        }
    }
}

/// Inserting a non-empty value under a key of `k` nibbles (meeting no
/// Keccak-256 collision) keeps every path of `k` nibbles full.
pub proof fn lemma_insert_keeps_full(t: MerkleRadixTrie, t2: MerkleRadixTrie, key: Seq<u8>, value: Seq<u8>)
    requires
        t.wf(),
        t2.wf(),
        t2.nodes() == insert_step(t.nodes(), t.root_ref(), key_path(key), value).0,
        t2.root_ref() == Some(insert_step(t.nodes(), t.root_ref(), key_path(key), value).1),
        0 < value.len() <= MAX_ITEM_LEN,
        insert_fresh(t.nodes(), t.root_ref(), key_path(key), value),
        full_trie(t, key_path(key).len()),
    ensures
        full_trie(t2, key_path(key).len()),
{
    if let Some(r) = t.root_ref() {
        assert(t.root matches Some(rr) && rr@ == r);
    }
    crate::nibbles::lemma_key_nibbles_are_nibbles(key);
    let path = key_path(key);
    assert forall|i: int| 0 <= i < path.len() implies path[i] < 16 by {
        assert(crate::nibbles::key_nibbles(key)[i] < 16);
    }
    assert(extends(t2.nodes(), t2.nodes()));
    lemma_insert_full(t.nodes(), t.root_ref(), path, value, t2.nodes());
}

} // verus!
