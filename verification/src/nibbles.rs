use vstd::prelude::*;

verus! {

/// The nibbles of a byte string: each byte gives its high half, then its low half.
pub open spec fn key_nibbles(key: Seq<u8>) -> Seq<u8> {
    Seq::new(
        2 * key.len(),
        |i: int|
            if i % 2 == 0 {
                key[i / 2] / 16
            } else {
                key[i / 2] % 16
            },
    )
}

/// The nibbles of a byte string, as trie branch indices.
pub open spec fn key_path(key: Seq<u8>) -> Seq<usize> {
    key_nibbles(key).map_values(|n: u8| n as usize)
}

/// Every element is a nibble (below 16).
pub open spec fn all_nibbles(s: Seq<u8>) -> bool {
    forall|i: int| 0 <= i < s.len() ==> s[i] < 16
}

/// Pairs of nibbles packed into bytes, high nibble first.
pub open spec fn packed_nibbles(nibbles: Seq<u8>) -> Seq<u8> {
    Seq::new(nibbles.len() / 2, |i: int| (nibbles[2 * i] * 16 + nibbles[2 * i + 1]) as u8)
}

proof fn lemma_byte_split(b: u8)
    ensures
        b >> 4 == b / 16,
        b & 0x0f == b % 16,
        b / 16 < 16,
{
    assert(b >> 4 == b / 16) by (bit_vector);
    assert(b & 0x0f == b % 16) by (bit_vector);
}

proof fn lemma_byte_join(hi: u8, lo: u8)
    requires
        hi < 16,
        lo < 16,
    ensures
        hi << 4 | lo == hi * 16 + lo,
        (hi * 16 + lo) / 16 == hi,
        (hi * 16 + lo) % 16 == lo,
        hi * 16 + lo < 256,
{
    assert(hi << 4 | lo == hi * 16 + lo) by (bit_vector)
        requires
            hi < 16,
            lo < 16,
    ;
    assert((hi * 16 + lo) / 16 == hi && (hi * 16 + lo) % 16 == lo) by (nonlinear_arith)
        requires
            hi < 16,
            lo < 16,
    ;
}

/// The nibbles of any byte string are all below 16.
pub proof fn lemma_key_nibbles_are_nibbles(key: Seq<u8>)
    ensures
        all_nibbles(key_nibbles(key)),
{
    assert forall|i: int| 0 <= i < key_nibbles(key).len() implies key_nibbles(key)[i] < 16 by {
        lemma_byte_split(key[i / 2]);
    }
}

/// Unpacking packed nibbles gives the nibbles back.
pub proof fn lemma_unpack_packed(nibbles: Seq<u8>)
    requires
        all_nibbles(nibbles),
        nibbles.len() % 2 == 0,
    ensures
        key_nibbles(packed_nibbles(nibbles)) == nibbles,
{
    let p = packed_nibbles(nibbles);
    assert forall|i: int| 0 <= i < nibbles.len() implies key_nibbles(p)[i] == nibbles[i] by {
        let k = i / 2;
        lemma_byte_join(nibbles[2 * k], nibbles[2 * k + 1]);
    }
    assert(key_nibbles(p) =~= nibbles);
}

/// Different keys have different nibble paths.
pub proof fn lemma_key_path_injective(a: Seq<u8>, b: Seq<u8>)
    requires
        key_path(a) == key_path(b),
    ensures
        a == b,
{
    assert(key_path(a).len() == 2 * a.len());
    assert forall|i: int| 0 <= i < a.len() implies a[i] == b[i] by {
        assert(key_path(a)[2 * i] == key_path(b)[2 * i]);
        assert(key_path(a)[2 * i + 1] == key_path(b)[2 * i + 1]);
        assert((2 * i) / 2 == i);
        assert((2 * i + 1) / 2 == i);
        assert((2 * i) % 2 == 0);
        assert((2 * i + 1) % 2 == 1);
        assert(key_path(a)[2 * i] == key_nibbles(a)[2 * i] as usize);
        assert(key_path(b)[2 * i] == key_nibbles(b)[2 * i] as usize);
        assert(key_path(a)[2 * i + 1] == key_nibbles(a)[2 * i + 1] as usize);
        assert(key_path(b)[2 * i + 1] == key_nibbles(b)[2 * i + 1] as usize);
        assert(key_nibbles(a)[2 * i] == key_nibbles(b)[2 * i]);
        assert(key_nibbles(a)[2 * i + 1] == key_nibbles(b)[2 * i + 1]);
        let x = a[i];
        let y = b[i];
        assert(x / 16 == y / 16 && x % 16 == y % 16);
        assert(x == y) by (nonlinear_arith)
            requires
                x / 16 == y / 16,
                x % 16 == y % 16,
        ;
    }
    assert(a =~= b);
}

/// Converts each byte into two 4-bit nibbles so that a trie can branch 16 ways.
pub fn bytes_to_nibbles(bytes: &[u8]) -> (nibbles: Vec<usize>)
    ensures
        nibbles@ == key_path(bytes@),
{
    let mut nibbles: Vec<usize> = Vec::new();
    for i in 0..bytes.len()
        invariant
            nibbles@.len() == 2 * i,
            forall|j: int| 0 <= j < 2 * i ==> nibbles@[j] == key_path(bytes@)[j],
    {
        let byte = bytes[i];
        proof {
            lemma_byte_split(byte);
        }
        let high = (byte >> 4) as usize;
        let low = (byte & 0x0f) as usize;
        nibbles.push(high);
        nibbles.push(low);
        assert((2 * i as int) / 2 == i && (2 * i as int) % 2 == 0);
        assert((2 * i as int + 1) / 2 == i && (2 * i as int + 1) % 2 == 1);
    }
    assert(nibbles@ =~= key_path(bytes@));
    nibbles
}

/// Packs pairs of nibbles into bytes, high nibble first.
pub fn pack_nibbles(nibbles: &[u8]) -> (bytes: Vec<u8>)
    requires
        nibbles@.len() % 2 == 0,
        all_nibbles(nibbles@),
    ensures
        bytes@ == packed_nibbles(nibbles@),
{
    let mut bytes: Vec<u8> = Vec::new();
    let len = nibbles.len();
    let n = len / 2;
    for i in 0..n
        invariant
            len == nibbles@.len(),
            n == nibbles@.len() / 2,
            nibbles@.len() % 2 == 0,
            all_nibbles(nibbles@),
            bytes@.len() == i,
            forall|j: int| 0 <= j < i ==> bytes@[j] == packed_nibbles(nibbles@)[j],
    {
        assert(2 * i + 1 < nibbles@.len());
        let hi = nibbles[2 * i];
        let lo = nibbles[2 * i + 1];
        proof {
            lemma_byte_join(hi, lo);
        }
        bytes.push(hi << 4 | lo);
    }
    assert(bytes@ =~= packed_nibbles(nibbles@));
    bytes
}

/// Splits each byte into its high and low nibble.
pub fn unpack_nibbles(bytes: &[u8]) -> (nibbles: Vec<u8>)
    ensures
        nibbles@ == key_nibbles(bytes@),
{
    let mut nibbles: Vec<u8> = Vec::new();
    for i in 0..bytes.len()
        invariant
            nibbles@.len() == 2 * i,
            forall|j: int| 0 <= j < 2 * i ==> nibbles@[j] == key_nibbles(bytes@)[j],
    {
        let byte = bytes[i];
        proof {
            lemma_byte_split(byte);
        }
        nibbles.push(byte >> 4);
        nibbles.push(byte & 0x0f);
        assert((2 * i as int) / 2 == i && (2 * i as int) % 2 == 0);
        assert((2 * i as int + 1) / 2 == i && (2 * i as int + 1) % 2 == 1);
    }
    assert(nibbles@ =~= key_nibbles(bytes@));
    nibbles
}

} // verus!
