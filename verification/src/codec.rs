//! Serialization codec for element values and for the collection's
//! persisted state, as byte strings: a value is stored as its length in
//! four little-endian bytes followed by its bytes. The executable codec
//! is the borsh crate, trusted at this interface; the shape of the
//! encoding is stated here and everything else is proved from it.

use vstd::prelude::*;

use crate::keys::{le32, le32_value, lemma_le32_canonical, lemma_le32_round_trip};

verus! {

/// The stored form of an element value: its length in four little-endian
/// bytes, then the value itself.
pub open spec fn encoded(s: Seq<u8>) -> Seq<u8> {
    le32(s.len() as u32) + s
}

/// Whether a byte string is the stored form of some value: a four-byte
/// length that accounts for exactly the remaining bytes.
pub open spec fn is_encoding(b: Seq<u8>) -> bool {
    b.len() >= 4 && le32_value(b.subrange(0, 4)) as int == b.len() - 4
}

/// The value a stored form denotes: everything after the length bytes.
pub open spec fn payload(b: Seq<u8>) -> Seq<u8> {
    b.subrange(4, b.len() as int)
}

/// An encoding decodes to the value it was made from.
pub proof fn lemma_encoded_valid(s: Seq<u8>)
    requires
        s.len() <= u32::MAX,
    ensures
        is_encoding(encoded(s)),
        payload(encoded(s)) == s,
{
    lemma_le32_round_trip(s.len() as u32);
    assert(encoded(s).subrange(0, 4) =~= le32(s.len() as u32));
    assert(payload(encoded(s)) =~= s);
}

/// The stored form is canonical: a valid encoding is exactly the
/// encoding of its own payload.
pub proof fn lemma_encoding_canonical(b: Seq<u8>)
    requires
        is_encoding(b),
    ensures
        payload(b).len() <= u32::MAX,
        encoded(payload(b)) == b,
{
    lemma_le32_canonical(b.subrange(0, 4));
    assert(encoded(payload(b)) =~= b);
}

/// Relies on `borsh::to_vec` for `Vec<u8>`: the length as four
/// little-endian bytes, then the bytes themselves; it fails only on a
/// length above `u32::MAX`.
#[verifier::external_body]
pub(crate) fn encode_element(v: &Vec<u8>) -> (r: Vec<u8>)
    requires
        v@.len() <= u32::MAX,
    ensures
        r@ == encoded(v@),
{
    borsh::to_vec(v).unwrap()
}

/// Relies on `borsh::from_slice` for `Vec<u8>`: it succeeds exactly on a
/// four-byte little-endian length matched by the remaining bytes, returns
/// those bytes, and rejects trailing input.
#[verifier::external_body]
pub(crate) fn decode_element(b: &Vec<u8>) -> (r: Option<Vec<u8>>)
    ensures
        r is Some <==> is_encoding(b@),
        r is Some ==> r.unwrap()@ == payload(b@),
{
    borsh::from_slice::<Vec<u8>>(b).ok()
}

/// The persisted state of a collection: its length as four little-endian
/// bytes, then its prefix in stored form.
pub open spec fn state_encoded(length: u32, prefix: Seq<u8>) -> Seq<u8> {
    le32(length) + encoded(prefix)
}

/// Whether a byte string is the persisted state of some collection.
pub open spec fn is_state_encoding(b: Seq<u8>) -> bool {
    b.len() >= 4 && is_encoding(b.subrange(4, b.len() as int))
}

/// A persisted state decodes to the length and prefix it was made from.
pub proof fn lemma_state_round_trip(length: u32, prefix: Seq<u8>)
    requires
        prefix.len() <= u32::MAX,
    ensures
        is_state_encoding(state_encoded(length, prefix)),
        le32_value(state_encoded(length, prefix).subrange(0, 4)) == length,
        payload(state_encoded(length, prefix).subrange(4, state_encoded(length, prefix).len() as int))
            == prefix,
{
    let b = state_encoded(length, prefix);
    lemma_le32_round_trip(length);
    assert(b.subrange(0, 4) =~= le32(length));
    assert(b.subrange(4, b.len() as int) =~= encoded(prefix));
    lemma_encoded_valid(prefix);
}

/// Relies on `borsh::to_vec` for a `(u32, Vec<u8>)` pair: the fields in
/// order, the integer as four little-endian bytes, then the vector in its
/// stored form; it fails only on a vector longer than `u32::MAX`.
#[verifier::external_body]
pub(crate) fn encode_state(length: u32, prefix: &Vec<u8>) -> (r: Vec<u8>)
    requires
        prefix@.len() <= u32::MAX,
    ensures
        r@ == state_encoded(length, prefix@),
{
    borsh::to_vec(&(length, prefix)).unwrap()
}

/// Relies on `borsh::from_slice` for `(u32, Vec<u8>)`: it succeeds
/// exactly on a four-byte integer followed by a stored vector spanning
/// the rest of the input, and returns the two fields.
#[verifier::external_body]
pub(crate) fn decode_state(b: &Vec<u8>) -> (r: Option<(u32, Vec<u8>)>)
    ensures
        r is Some <==> is_state_encoding(b@),
        r is Some ==> r.unwrap().0 == le32_value(b@.subrange(0, 4)) && r.unwrap().1@ == payload(
            b@.subrange(4, b@.len() as int),
        ),
{
    borsh::from_slice::<(u32, Vec<u8>)>(b).ok()
}

} // verus!
