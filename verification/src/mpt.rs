use vstd::prelude::*;

use crate::nibbles::{all_nibbles, key_nibbles, packed_nibbles, pack_nibbles, unpack_nibbles};

verus! {

/// A 4-bit path element.
pub type Nibble = u8;

/// A reference to a child node: the hash of its encoding.
pub type NodeRef = crate::types::Hash;

/// The flag nibble of the hex-prefix encoding.
pub open spec fn compact_flag(is_leaf: bool, is_odd: bool) -> u8 {
    if is_leaf {
        if is_odd {
            3
        } else {
            2
        }
    } else {
        if is_odd {
            1
        } else {
            0
        }
    }
}

/// The nibbles of the hex-prefix encoding of a path: the flag nibble, a zero
/// nibble when the path has even length, then the path.
pub open spec fn hex_prefix(path: Seq<u8>, is_leaf: bool) -> Seq<u8> {
    let is_odd = path.len() % 2 == 1;
    if is_odd {
        seq![compact_flag(is_leaf, true)] + path
    } else {
        seq![compact_flag(is_leaf, false), 0u8] + path
    }
}

/// The hex-prefix (compact) encoding of a nibble path.
pub open spec fn compact_encoding(path: Seq<u8>, is_leaf: bool) -> Seq<u8> {
    packed_nibbles(hex_prefix(path, is_leaf))
}

/// What decoding a hex-prefix encoding gives: the path and whether it
/// belongs to a leaf, or nothing when the flag nibble is not valid.
pub open spec fn compact_decoding(encoded: Seq<u8>) -> Option<(Seq<u8>, bool)> {
    let n = key_nibbles(encoded);
    if n.len() == 0 {
        None
    } else {
        let flag = n[0];
        let is_leaf = flag == 2 || flag == 3;
        let is_odd = flag == 1 || flag == 3;
        if flag <= 3 && is_odd {
            Some((n.subrange(1, n.len() as int), is_leaf))
        } else if flag <= 3 && !is_odd && n.len() > 1 && n[1] == 0 {
            Some((n.subrange(2, n.len() as int), is_leaf))
        } else {
            None
        }
    }
}

/// Decoding the hex-prefix encoding of a nibble path gives back the path and
/// its leaf flag.
pub proof fn lemma_compact_round_trip(path: Seq<u8>, is_leaf: bool)
    requires
        all_nibbles(path),
    ensures
        compact_decoding(compact_encoding(path, is_leaf)) == Some((path, is_leaf)),
{
    let hp = hex_prefix(path, is_leaf);
    assert(all_nibbles(hp));
    assert(hp.len() % 2 == 0);
    crate::nibbles::lemma_unpack_packed(hp);
    let n = key_nibbles(compact_encoding(path, is_leaf));
    assert(n == hp);
    if path.len() % 2 == 1 {
        assert(n.subrange(1, n.len() as int) =~= path);
    } else {
        assert(n.subrange(2, n.len() as int) =~= path);
    }
}

/// The first byte of the hex-prefix encoding of a nibble path: its high
/// nibble is 2 for a leaf and 0 for an extension, plus 1 when the path has
/// odd length; its low nibble is the path's first nibble for an odd length
/// and 0 for an even one. The remaining bytes pack the rest of the path, so
/// the encoding has one byte more than half the path's length, rounded down.
#[verifier::rlimit(30)]
pub proof fn lemma_compact_first_byte(path: Seq<u8>, is_leaf: bool)
    requires
        all_nibbles(path),
    ensures
        compact_encoding(path, is_leaf).len() == path.len() / 2 + 1,
        compact_encoding(path, is_leaf)[0] / 16 == (if is_leaf { 2u8 } else { 0u8 }) + (if path.len() % 2 == 1 { 1u8 } else { 0u8 }),
        compact_encoding(path, is_leaf)[0] % 16 == (if path.len() % 2 == 1 { path[0] } else { 0u8 }),
        key_nibbles(compact_encoding(path, is_leaf)) == (if path.len() % 2 == 1 {
            seq![(if is_leaf { 3u8 } else { 1u8 })] + path
        } else {
            seq![(if is_leaf { 2u8 } else { 0u8 }), 0u8] + path
        }),
{
    let hp = hex_prefix(path, is_leaf);
    assert(all_nibbles(hp));
    assert(hp.len() % 2 == 0);
    crate::nibbles::lemma_unpack_packed(hp);
    let e = compact_encoding(path, is_leaf);
    assert(key_nibbles(e) == hp);
    assert(key_nibbles(e)[0] == e[0] / 16);
    assert(key_nibbles(e)[1] == e[0] % 16);
}

/// Decoding a hex-prefix encoding reports a leaf exactly when the high
/// nibble of the first byte (the flag) is 2 or 3, an odd-length path exactly
/// when it is 1 or 3, and fails for a flag above 3.
pub proof fn lemma_compact_decoding_flag(encoded: Seq<u8>)
    ensures
        compact_decoding(encoded) matches Some((path, is_leaf)) ==> encoded.len() > 0
            && is_leaf == (encoded[0] / 16 == 2 || encoded[0] / 16 == 3)
            && encoded[0] / 16 <= 3
            && path.len() % 2 == (if encoded[0] / 16 == 1 || encoded[0] / 16 == 3 { 1int } else { 0int })
            && path == key_nibbles(encoded).subrange(
                if encoded[0] / 16 == 1 || encoded[0] / 16 == 3 { 1int } else { 2int },
                2 * encoded.len() as int,
            ),
        encoded.len() > 0 && encoded[0] / 16 > 3 ==> compact_decoding(encoded) is None,
{
    let n = key_nibbles(encoded);
    if encoded.len() > 0 {
        assert(n[0] == encoded[0] / 16);
    }
}

/// Encodes a nibble path with the hex-prefix encoding; the flag records
/// whether the path belongs to a leaf and whether its length is odd.
pub fn compact_encode(path: &[Nibble], is_leaf: bool) -> (encoded: Vec<u8>)
    requires
        all_nibbles(path@),
    ensures
        encoded@ == compact_encoding(path@, is_leaf),
{
    let is_odd = path.len() % 2 == 1;
    let flag: u8 = match (is_leaf, is_odd) {
        (false, false) => 0,
        (false, true) => 1,
        (true, false) => 2,
        (true, true) => 3,
    };
    let mut encoded_nibbles: Vec<u8> = Vec::new();
    encoded_nibbles.push(flag);
    if !is_odd {
        encoded_nibbles.push(0);
    }
    for i in 0..path.len()
        invariant
            encoded_nibbles@ == (if is_odd {
                seq![flag]
            } else {
                seq![flag, 0u8]
            }) + path@.subrange(0, i as int),
    {
        encoded_nibbles.push(path[i]);
        assert(path@.subrange(0, i + 1) =~= path@.subrange(0, i as int).push(path@[i as int]));
    }
    assert(path@.subrange(0, path@.len() as int) =~= path@);
    assert(encoded_nibbles@ =~= hex_prefix(path@, is_leaf));
    pack_nibbles(encoded_nibbles.as_slice())
}

/// Decodes a hex-prefix encoded path; `None` when the input is empty or its
/// flag nibble is invalid.
pub fn compact_decode(encoded: &[u8]) -> (decoded: Option<(Vec<Nibble>, bool)>)
    ensures
        match decoded {
            Some((path, is_leaf)) => compact_decoding(encoded@) == Some((path@, is_leaf)),
            None => compact_decoding(encoded@) is None,
        },
{
    let nibbles = unpack_nibbles(encoded);
    if nibbles.len() == 0 {
        return None;
    }
    let flag = nibbles[0];
    let is_leaf = flag == 2 || flag == 3;
    let is_odd = flag == 1 || flag == 3;
    if flag <= 3 && is_odd {
        Some((slice_suffix(&nibbles, 1), is_leaf))
    } else if flag <= 3 && !is_odd && nibbles.len() > 1 && nibbles[1] == 0 {
        Some((slice_suffix(&nibbles, 2), is_leaf))
    } else {
        None
    }
}

/// The elements of `v` from index `start` on.
fn slice_suffix(v: &Vec<u8>, start: usize) -> (r: Vec<u8>)
    requires
        start <= v@.len(),
    ensures
        r@ == v@.subrange(start as int, v@.len() as int),
{
    let mut r: Vec<u8> = Vec::new();
    let mut i = start;
    while i < v.len()
        invariant
            start <= i <= v@.len(),
            r@ == v@.subrange(start as int, i as int),
        decreases v@.len() - i,
    {
        r.push(v[i]);
        assert(v@.subrange(start as int, i + 1) =~= v@.subrange(start as int, i as int).push(
            v@[i as int],
        ));
        i = i + 1;
    }
    r
}

/// A node of a Merkle Patricia trie.
#[derive(Debug, Clone, PartialEq, Eq)]
pub enum MptNode {
    Branch { children: [Option<NodeRef>; 16], value: Option<Vec<u8>> },
    Leaf { path: Vec<Nibble>, value: Vec<u8> },
    Extension { path: Vec<Nibble>, child: NodeRef },
}

impl MptNode {
    /// A branch node with no children and no value.
    pub fn branch() -> (node: Self)
        ensures
            node matches MptNode::Branch { children, value } && value is None && (forall|i: int|
                0 <= i < 16 ==> children@[i] is None),
    {
        MptNode::Branch { children: [None; 16], value: None }
    }

    /// A branch node with no children that holds the value of a key that ends here.
    pub fn branch_with_value(value: Vec<u8>) -> (node: Self)
        ensures
            node matches MptNode::Branch { children, value: v } && v == Some(value) && (forall|
                i: int,
            |
                0 <= i < 16 ==> children@[i] is None),
    {
        MptNode::Branch { children: [None; 16], value: Some(value) }
    }

    /// A leaf holding the rest of a key's path and its value.
    pub fn leaf(path: Vec<Nibble>, value: Vec<u8>) -> (node: Self)
        ensures
            node == (MptNode::Leaf { path, value }),
    {
        MptNode::Leaf { path, value }
    }

    /// An extension holding a shared path and the reference to its child.
    pub fn extension(path: Vec<Nibble>, child: NodeRef) -> (node: Self)
        ensures
            node == (MptNode::Extension { path, child }),
    {
        MptNode::Extension { path, child }
    }
}

} // verus!
