use vstd::prelude::*;

use rlp::{DecoderError, Rlp, RlpStream};

verus! {

#[verifier::external_type_specification]
#[verifier::external_body]
pub struct ExRlpStream(RlpStream);

#[verifier::external_type_specification]
#[verifier::external_body]
pub struct ExDecoderError(DecoderError);

// ---------------------------------------------------------------------------
// The RLP byte format.
// ---------------------------------------------------------------------------

/// The minimal big-endian bytes of a number (no bytes for zero).
pub open spec fn be_bytes(n: nat) -> Seq<u8>
    decreases n,
{
    if n == 0 {
        Seq::empty()
    } else {
        be_bytes(n / 256).push((n % 256) as u8)
    }
}

/// The RLP header of a string (`offset` 0x80) or a list (`offset` 0xc0)
/// whose payload has `len` bytes.
pub open spec fn length_prefix(offset: nat, len: nat) -> Seq<u8> {
    if len <= 55 {
        seq![(offset + len) as u8]
    } else {
        seq![(offset + 55 + be_bytes(len).len()) as u8] + be_bytes(len)
    }
}

/// The RLP encoding of a byte string.
pub open spec fn rlp_string(b: Seq<u8>) -> Seq<u8> {
    if b.len() == 1 && b[0] < 0x80 {
        b
    } else {
        length_prefix(0x80, b.len()) + b
    }
}

/// The RLP encodings of the byte strings `items`, one after the other.
pub open spec fn rlp_payload(items: Seq<Seq<u8>>) -> Seq<u8>
    decreases items.len(),
{
    if items.len() == 0 {
        Seq::empty()
    } else {
        rlp_payload(items.drop_last()) + rlp_string(items.last())
    }
}

/// The RLP encoding of a list whose items are the byte strings `items`.
pub open spec fn rlp_list_of_strings(items: Seq<Seq<u8>>) -> Seq<u8> {
    length_prefix(0xc0, rlp_payload(items).len()) + rlp_payload(items)
}

/// The largest byte string that the encoders of this library hand to the
/// RLP stream as one item: 2^32 - 4096. The stream writes lengths as 32-bit
/// numbers, so a branch node fits while its value has at most 2^32 - 598
/// bytes (16 child fields of at most 37 bytes and 5 bytes of value header);
/// the bound is that limit rounded down to a multiple of 4096.
pub const MAX_ITEM_LEN: usize = 0xFFFF_F000;

/// An upper bound on the payload length of a list of these strings: each
/// string with a header of at most 5 bytes.
pub open spec fn rlp_weight(items: Seq<Seq<u8>>) -> nat
    decreases items.len(),
{
    if items.len() == 0 {
        0
    } else {
        rlp_weight(items.drop_last()) + items.last().len() + 5
    }
}

/// Sizes for which every length that the stream writes is below 2^32 (the
/// stream writes lengths as 32-bit numbers).
pub open spec fn rlp_fits(items: Seq<Seq<u8>>) -> bool {
    rlp_weight(items) < 0x1_0000_0000
}

// ---------------------------------------------------------------------------
// Names for what the decoder returns.
// ---------------------------------------------------------------------------

/// What `Rlp::item_count` returns on these bytes (`None` for an error).
pub uninterp spec fn rlp_item_count_spec(data: Seq<u8>) -> Option<nat>;

/// What `Rlp::val_at::<Vec<u8>>` returns for this index (`None` for an error).
pub uninterp spec fn rlp_bytes_at_spec(data: Seq<u8>, index: nat) -> Option<Seq<u8>>;

/// What `Rlp::val_at::<u64>` returns for this index (`None` for an error).
pub uninterp spec fn rlp_u64_at_spec(data: Seq<u8>, index: nat) -> Option<u64>;

/// What `Rlp::val_at::<u8>` returns for this index (`None` for an error).
pub uninterp spec fn rlp_u8_at_spec(data: Seq<u8>, index: nat) -> Option<u8>;

/// What `rlp::decode::<Vec<u8>>` returns on these bytes (`None` for an error).
pub uninterp spec fn rlp_decode_bytes_spec(data: Seq<u8>) -> Option<Seq<u8>>;

/// What the decoder gives back on the encoding of a list of byte strings:
/// the item count, each item as bytes, and each item that is the minimal
/// big-endian form of a number as that number.
pub open spec fn rlp_list_decodes_to(data: Seq<u8>, items: Seq<Seq<u8>>) -> bool {
    &&& rlp_item_count_spec(data) == Some(items.len())
    &&& forall|i: nat| i < items.len() ==> #[trigger] rlp_bytes_at_spec(data, i) == Some(
        items[i as int],
    )
    &&& forall|i: nat, v: u64|
        #![trigger rlp_u64_at_spec(data, i), be_bytes(v as nat)]
        i < items.len() && items[i as int] == be_bytes(v as nat) ==> rlp_u64_at_spec(data, i)
            == Some(v)
    &&& forall|i: nat, v: u8|
        #![trigger rlp_u8_at_spec(data, i), be_bytes(v as nat)]
        i < items.len() && items[i as int] == be_bytes(v as nat) ==> rlp_u8_at_spec(data, i)
            == Some(v)
}

// ---------------------------------------------------------------------------
// The stream.
// ---------------------------------------------------------------------------

/// The byte strings appended to the stream so far.
pub uninterp spec fn rlp_stream_items(s: RlpStream) -> Seq<Seq<u8>>;

/// The item count declared for the stream's list, or `None` for a stream
/// that holds bare items.
pub uninterp spec fn rlp_stream_list_len(s: RlpStream) -> Option<nat>;

/// There is room for one more item.
pub open spec fn rlp_stream_open(s: RlpStream) -> bool {
    match rlp_stream_list_len(s) {
        Some(n) => rlp_stream_items(s).len() < n,
        None => true,
    }
}

/// `RlpStream::new_list`: a stream for a list of `len` items, with nothing
/// appended yet.
#[verifier::external_body]
pub(crate) fn rlp_new_list(len: usize) -> (s: RlpStream)
    ensures
        rlp_stream_items(s) == Seq::<Seq<u8>>::empty(),
        rlp_stream_list_len(s) == Some(len as nat),
{
    RlpStream::new_list(len)
}

/// `RlpStream::new`: a stream for bare items, with nothing appended yet.
#[verifier::external_body]
pub(crate) fn rlp_new_stream() -> (s: RlpStream)
    ensures
        rlp_stream_items(s) == Seq::<Seq<u8>>::empty(),
        rlp_stream_list_len(s) == None::<nat>,
{
    RlpStream::new()
}

/// `RlpStream::append` of a byte string: appends it as one item. The stream
/// panics when a list gets more items than declared; `requires` leaves that out.
#[verifier::external_body]
pub(crate) fn rlp_append_bytes(s: &mut RlpStream, bytes: &[u8])
    requires
        rlp_stream_open(*old(s)),
    ensures
        rlp_stream_items(*final(s)) == rlp_stream_items(*old(s)).push(bytes@),
        rlp_stream_list_len(*final(s)) == rlp_stream_list_len(*old(s)),
{
    s.append(&bytes);
}

/// `RlpStream::append` of a `u64`: appends its minimal big-endian bytes as one item.
#[verifier::external_body]
pub(crate) fn rlp_append_u64(s: &mut RlpStream, value: u64)
    requires
        rlp_stream_open(*old(s)),
    ensures
        rlp_stream_items(*final(s)) == rlp_stream_items(*old(s)).push(be_bytes(value as nat)),
        rlp_stream_list_len(*final(s)) == rlp_stream_list_len(*old(s)),
{
    s.append(&value);
}

/// `RlpStream::append` of a `u8`: appends its minimal big-endian bytes (none
/// for zero) as one item.
#[verifier::external_body]
pub(crate) fn rlp_append_u8(s: &mut RlpStream, value: u8)
    requires
        rlp_stream_open(*old(s)),
    ensures
        rlp_stream_items(*final(s)) == rlp_stream_items(*old(s)).push(be_bytes(value as nat)),
        rlp_stream_list_len(*final(s)) == rlp_stream_list_len(*old(s)),
{
    s.append(&value);
}

/// `RlpStream::append_empty_data`: appends the empty byte string as one item.
#[verifier::external_body]
pub(crate) fn rlp_append_empty(s: &mut RlpStream)
    requires
        rlp_stream_open(*old(s)),
    ensures
        rlp_stream_items(*final(s)) == rlp_stream_items(*old(s)).push(Seq::<u8>::empty()),
        rlp_stream_list_len(*final(s)) == rlp_stream_list_len(*old(s)),
{
    s.append_empty_data();
}

/// `RlpStream::out`: the encoded bytes. It panics while a list still lacks
/// items; `requires` leaves that out, and keeps every length below 2^32.
/// Besides the bytes, the contract states that the decoder gives back the
/// items of any list whose canonical encoding these bytes are, and the byte
/// string of which they are the encoding.
#[verifier::external_body]
pub(crate) fn rlp_out(s: RlpStream) -> (out: Vec<u8>)
    requires
        rlp_stream_list_len(s) matches Some(n) ==> rlp_stream_items(s).len() == n,
        rlp_fits(rlp_stream_items(s)),
    ensures
        rlp_stream_list_len(s) is Some ==> out@ == rlp_list_of_strings(rlp_stream_items(s)),
        rlp_stream_list_len(s) is None ==> out@ == rlp_payload(rlp_stream_items(s)),
        forall|items: Seq<Seq<u8>>|
            #[trigger] rlp_list_of_strings(items) == out@ && rlp_fits(items) ==> rlp_list_decodes_to(
                out@,
                items,
            ),
        forall|b: Seq<u8>|
            #[trigger] rlp_string(b) == out@ && b.len() <= MAX_ITEM_LEN ==> rlp_decode_bytes_spec(
                out@,
            ) == Some(b),
{
    s.out().to_vec()
}

// ---------------------------------------------------------------------------
// The decoder.
// ---------------------------------------------------------------------------

/// `Rlp::item_count` on `Rlp::new(data)`.
#[verifier::external_body]
pub(crate) fn rlp_item_count(data: &[u8]) -> (r: Result<usize, DecoderError>)
    ensures
        match r {
            Ok(n) => rlp_item_count_spec(data@) == Some(n as nat),
            Err(_) => rlp_item_count_spec(data@) is None,
        },
{
    Rlp::new(data).item_count()
}

/// `Rlp::val_at::<Vec<u8>>` on `Rlp::new(data)`.
#[verifier::external_body]
pub(crate) fn rlp_bytes_at(data: &[u8], index: usize) -> (r: Result<Vec<u8>, DecoderError>)
    ensures
        match r {
            Ok(b) => rlp_bytes_at_spec(data@, index as nat) == Some(b@),
            Err(_) => rlp_bytes_at_spec(data@, index as nat) is None,
        },
{
    Rlp::new(data).val_at::<Vec<u8>>(index)
}

/// `Rlp::val_at::<u64>` on `Rlp::new(data)`.
#[verifier::external_body]
pub(crate) fn rlp_u64_at(data: &[u8], index: usize) -> (r: Result<u64, DecoderError>)
    ensures
        match r {
            Ok(v) => rlp_u64_at_spec(data@, index as nat) == Some(v),
            Err(_) => rlp_u64_at_spec(data@, index as nat) is None,
        },
{
    Rlp::new(data).val_at::<u64>(index)
}

/// `Rlp::val_at::<u8>` on `Rlp::new(data)`.
#[verifier::external_body]
pub(crate) fn rlp_u8_at(data: &[u8], index: usize) -> (r: Result<u8, DecoderError>)
    ensures
        match r {
            Ok(v) => rlp_u8_at_spec(data@, index as nat) == Some(v),
            Err(_) => rlp_u8_at_spec(data@, index as nat) is None,
        },
{
    Rlp::new(data).val_at::<u8>(index)
}

/// `rlp::decode::<Vec<u8>>`: the byte string that the data encodes.
#[verifier::external_body]
pub(crate) fn rlp_decode_bytes(data: &[u8]) -> (r: Result<Vec<u8>, DecoderError>)
    ensures
        match r {
            Ok(b) => rlp_decode_bytes_spec(data@) == Some(b@),
            Err(_) => rlp_decode_bytes_spec(data@) is None,
        },
{
    rlp::decode::<Vec<u8>>(data)
}

/// 256 to the power `k`.
pub open spec fn pow256(k: nat) -> nat
    decreases k,
{
    if k == 0 {
        1
    } else {
        256 * pow256((k - 1) as nat)
    }
}

/// The minimal big-endian form of a number below 2^64 has at most 8 bytes.
pub proof fn lemma_be_bytes_len_u64(v: u64)
    ensures
        be_bytes(v as nat).len() <= 8,
{
    reveal_with_fuel(pow256, 9);
    assert(pow256(8) == 0x1_0000_0000_0000_0000);
    lemma_be_bytes_len(v as nat, 8);
}

/// The minimal big-endian form of a number below 256^k has at most k bytes.
pub proof fn lemma_be_bytes_len(n: nat, k: nat)
    requires
        n < pow256(k),
    ensures
        be_bytes(n).len() <= k,
    decreases k,
{
    if n > 0 && k > 0 {
        assert(n / 256 < pow256((k - 1) as nat)) by (nonlinear_arith)
            requires
                n < 256 * pow256((k - 1) as nat),
        ;
        lemma_be_bytes_len(n / 256, (k - 1) as nat);
    }
}


/// A length below 2^32 takes at most 4 bytes, so a header at most 5.
pub proof fn lemma_length_prefix_len(offset: nat, len: nat)
    requires
        len < 0x1_0000_0000,
    ensures
        length_prefix(offset, len).len() <= 5,
        length_prefix(offset, len).len() >= 1,
{
    reveal_with_fuel(pow256, 5);
    assert(pow256(4) == 0x1_0000_0000);
    lemma_be_bytes_len(len, 4);
}

/// An encoded byte string is at most 5 bytes longer than the string.
pub proof fn lemma_rlp_string_len(b: Seq<u8>)
    requires
        b.len() < 0x1_0000_0000,
    ensures
        rlp_string(b).len() <= b.len() + 5,
{
    lemma_length_prefix_len(0x80, b.len());
}

/// The payload of strings of at most `m` bytes each takes at most `m + 5`
/// bytes per string.
pub proof fn lemma_rlp_payload_len(items: Seq<Seq<u8>>, m: nat)
    requires
        m < 0x1_0000_0000,
        forall|i: int| 0 <= i < items.len() ==> #[trigger] items[i].len() <= m,
    ensures
        rlp_payload(items).len() <= items.len() * (m + 5),
    decreases items.len(),
{
    if items.len() > 0 {
        lemma_rlp_payload_len(items.drop_last(), m);
        lemma_rlp_string_len(items.last());
        let n = items.len();
        assert((n - 1) * (m + 5) + (m + 5) == n * (m + 5)) by (nonlinear_arith);
    }
}

/// The encoding of a list of strings of at most `m` bytes each is at most
/// `m + 5` bytes per string plus a 5-byte header.
pub proof fn lemma_rlp_list_len(items: Seq<Seq<u8>>, m: nat)
    requires
        m < 0x1_0000_0000,
        forall|i: int| 0 <= i < items.len() ==> #[trigger] items[i].len() <= m,
        items.len() * (m + 5) < 0x1_0000_0000,
    ensures
        rlp_list_of_strings(items).len() <= items.len() * (m + 5) + 5,
        rlp_list_of_strings(items).len() >= 1,
{
    lemma_rlp_payload_len(items, m);
    lemma_length_prefix_len(0xc0, rlp_payload(items).len());
}


/// The weight of strings of at most `m` bytes each.
pub proof fn lemma_rlp_weight_bound(items: Seq<Seq<u8>>, m: nat)
    requires
        forall|i: int| 0 <= i < items.len() ==> #[trigger] items[i].len() <= m,
    ensures
        rlp_weight(items) <= items.len() * (m + 5),
    decreases items.len(),
{
    if items.len() > 0 {
        lemma_rlp_weight_bound(items.drop_last(), m);
        let n = items.len();
        assert((n - 1) * (m + 5) + (m + 5) == n * (m + 5)) by (nonlinear_arith);
    }
}


/// Different numbers have different minimal big-endian forms.
pub proof fn lemma_be_bytes_injective(a: nat, b: nat)
    requires
        be_bytes(a) == be_bytes(b),
    ensures
        a == b,
    decreases a,
{
    if a == 0 {
        if b != 0 {
            assert(be_bytes(b).len() > 0);
        }
    } else {
        if b == 0 {
            assert(be_bytes(a).len() > 0);
        } else {
            let pa = be_bytes(a / 256);
            let pb = be_bytes(b / 256);
            assert(be_bytes(a) == pa.push((a % 256) as u8));
            assert(be_bytes(b) == pb.push((b % 256) as u8));
            assert(pa =~= be_bytes(a).drop_last());
            assert(pb =~= be_bytes(b).drop_last());
            lemma_be_bytes_injective(a / 256, b / 256);
            assert(be_bytes(a).last() == (a % 256) as u8);
            assert(be_bytes(b).last() == (b % 256) as u8);
            assert((a % 256) as u8 == (b % 256) as u8);
            assert(a % 256 == b % 256);
        }
    }
}

/// Different byte strings of at most 55 bytes have different encodings.
pub proof fn lemma_rlp_string_injective_short(a: Seq<u8>, b: Seq<u8>)
    requires
        a.len() <= 55,
        b.len() <= 55,
        rlp_string(a) == rlp_string(b),
    ensures
        a == b,
{
    let ea = rlp_string(a);
    let eb = rlp_string(b);
    let a_single = a.len() == 1 && a[0] < 0x80;
    let b_single = b.len() == 1 && b[0] < 0x80;
    if a_single && b_single {
    } else if a_single {
        assert(eb[0] == 0x80 + b.len());
        assert(ea[0] < 0x80);
    } else if b_single {
        assert(ea[0] == 0x80 + a.len());
        assert(eb[0] < 0x80);
    } else {
        assert(ea[0] == 0x80 + a.len());
        assert(eb[0] == 0x80 + b.len());
        assert(a.len() == b.len());
        assert(a =~= ea.subrange(1, ea.len() as int));
        assert(b =~= eb.subrange(1, eb.len() as int));
    }
}

} // verus!
