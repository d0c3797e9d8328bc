use vstd::prelude::*;

verus! {

/// A 32-byte Keccak-256 digest.
pub type Hash = [u8; 32];

/// A 20-byte account address.
pub type Address = [u8; 20];

/// A storage slot key.
pub type StorageKey = [u8; 32];

/// A storage slot value.
pub type StorageValue = Vec<u8>;

/// Compares two hashes byte by byte.
pub fn hash_eq(a: &Hash, b: &Hash) -> (r: bool)
    ensures
        r == (a@ == b@),
{
    let mut i: usize = 0;
    while i < 32
        invariant
            i <= 32,
            forall|j: int| 0 <= j < i ==> a@[j] == b@[j],
        decreases 32 - i,
    {
        if a[i] != b[i] {
            return false;
        }
        i = i + 1;
    }
    assert(a@ =~= b@);
    true
}

/// Copies a 32-byte vector into a hash.
pub fn hash_from_vec(v: &Vec<u8>) -> (r: Hash)
    requires
        v.len() == 32,
    ensures
        r@ == v@,
{
    let mut h: Hash = [0u8; 32];
    let mut i: usize = 0;
    while i < 32
        invariant
            i <= 32,
            v.len() == 32,
            forall|j: int| 0 <= j < i ==> h@[j] == v@[j],
        decreases 32 - i,
    {
        h[i] = v[i];
        i = i + 1;
    }
    assert(h@ =~= v@);
    h
}

/// The view of an optional byte vector.
pub open spec fn opt_bytes(o: Option<Vec<u8>>) -> Option<Seq<u8>> {
    match o {
        Some(v) => Some(v@),
        None => None,
    }
}

/// The all-zero hash.
pub open spec fn zero_hash() -> Seq<u8> {
    Seq::new(32, |i: int| 0u8)
}

/// The all-zero hash.
pub fn zero_hash_value() -> (h: Hash)
    ensures
        h@ == zero_hash(),
{
    let h: Hash = [0u8; 32];
    assert(h@ =~= zero_hash());
    h
}

/// Compares two byte strings.
pub fn bytes_eq(a: &[u8], b: &[u8]) -> (r: bool)
    ensures
        r == (a@ == b@),
{
    if a.len() != b.len() {
        return false;
    }
    let mut i: usize = 0;
    while i < a.len()
        invariant
            i <= a@.len(),
            a@.len() == b@.len(),
            forall|j: int| 0 <= j < i ==> a@[j] == b@[j],
        decreases a@.len() - i,
    {
        if a[i] != b[i] {
            return false;
        }
        i = i + 1;
    }
    assert(a@ =~= b@);
    true
}

} // verus!
