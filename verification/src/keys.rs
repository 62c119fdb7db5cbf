//! Key encoder: the deterministic, injective mapping from a collection's
//! byte prefix and a logical index to the storage key that holds the
//! element at that index. A key is the prefix followed by the four-byte
//! little-endian form of the index.

use vstd::prelude::*;

verus! {

/// Little-endian bytes of a 32-bit index, least significant first.
pub open spec fn le32(n: u32) -> Seq<u8> {
    seq![
        (n & 0xff) as u8,
        ((n >> 8) & 0xff) as u8,
        ((n >> 16) & 0xff) as u8,
        ((n >> 24) & 0xff) as u8,
    ]
}

/// The 32-bit value that a four-byte little-endian sequence denotes.
pub open spec fn le32_value(b: Seq<u8>) -> u32 {
    (b[0] as u32) | ((b[1] as u32) << 8) | ((b[2] as u32) << 16) | ((b[3] as u32) << 24)
}

/// The storage key owned by index `index` under `prefix`.
pub open spec fn key_of(prefix: Seq<u8>, index: u32) -> Seq<u8> {
    prefix + le32(index)
}

/// Decoding the little-endian bytes of `n` gives back `n`.
pub proof fn lemma_le32_round_trip(n: u32)
    ensures
        le32(n).len() == 4,
        le32_value(le32(n)) == n,
{
    assert((((n & 0xff) as u8) as u32) | (((((n >> 8) & 0xff) as u8) as u32) << 8) | (((((n >> 16)
        & 0xff) as u8) as u32) << 16) | (((((n >> 24) & 0xff) as u8) as u32) << 24) == n)
        by (bit_vector);
    assert(le32(n)[0] == (n & 0xff) as u8);
    assert(le32(n)[1] == ((n >> 8) & 0xff) as u8);
    assert(le32(n)[2] == ((n >> 16) & 0xff) as u8);
    assert(le32(n)[3] == ((n >> 24) & 0xff) as u8);
}

/// Encoding the value that four bytes denote gives back those bytes.
pub proof fn lemma_le32_canonical(b: Seq<u8>)
    requires
        b.len() == 4,
    ensures
        le32(le32_value(b)) == b,
{
    let x0 = b[0] as u32;
    let x1 = b[1] as u32;
    let x2 = b[2] as u32;
    let x3 = b[3] as u32;
    let n = le32_value(b);
    assert((x0 < 256 && x1 < 256 && x2 < 256 && x3 < 256) ==> {
        let m = x0 | (x1 << 8) | (x2 << 16) | (x3 << 24);
        m & 0xff == x0 && (m >> 8) & 0xff == x1 && (m >> 16) & 0xff == x2 && (m >> 24) & 0xff
            == x3
    }) by (bit_vector);
    assert(n & 0xff == x0 && (n >> 8) & 0xff == x1 && (n >> 16) & 0xff == x2 && (n >> 24) & 0xff
        == x3);
    assert(le32(n) =~= b);
}

/// For a fixed prefix, distinct indices own distinct storage keys.
pub proof fn lemma_key_of_injective(prefix: Seq<u8>, a: u32, b: u32)
    requires
        key_of(prefix, a) == key_of(prefix, b),
    ensures
        a == b,
{
    lemma_le32_round_trip(a);
    lemma_le32_round_trip(b);
    assert(le32(a) =~= le32(b)) by {
        assert forall|i: int| 0 <= i < 4 implies le32(a)[i] == le32(b)[i] by {
            assert((prefix + le32(a))[prefix.len() + i] == le32(a)[i]);
            assert((prefix + le32(b))[prefix.len() + i] == le32(b)[i]);
        }
    }
}

/// Builds the four little-endian bytes of `n`.
pub fn le32_bytes(n: u32) -> (r: Vec<u8>)
    ensures
        r@ == le32(n),
{
    proof {
        assert(n & 0xff < 256 && (n >> 8) & 0xff < 256 && (n >> 16) & 0xff < 256 && (n >> 24)
            & 0xff < 256) by (bit_vector);
    }
    let mut r: Vec<u8> = Vec::new();
    r.push((n & 0xff) as u8);
    r.push(((n >> 8) & 0xff) as u8);
    r.push(((n >> 16) & 0xff) as u8);
    r.push(((n >> 24) & 0xff) as u8);
    proof {
        assert(r@ =~= le32(n));
    }
    r
}

/// Copies a byte sequence; used where a value must both stay in a
/// structure and be handed out.
pub fn copy_bytes(b: &Vec<u8>) -> (r: Vec<u8>)
    ensures
        r@ == b@,
{
    let mut r: Vec<u8> = Vec::new();
    let mut i: usize = 0;
    while i < b.len()
        invariant
            i <= b.len(),
            r@ =~= b@.subrange(0, i as int),
        decreases b.len() - i,
    {
        r.push(b[i]);
        i = i + 1;
    }
    proof {
        assert(r@ =~= b@);
    }
    r
}

/// Compares two byte sequences for equality of contents.
pub fn bytes_eq(a: &Vec<u8>, b: &Vec<u8>) -> (r: bool)
    ensures
        r == (a@ == b@),
{
    if a.len() != b.len() {
        proof {
            assert(a@ != b@);
        }
        return false;
    }
    let mut i: usize = 0;
    while i < a.len()
        invariant
            i <= a.len(),
            a.len() == b.len(),
            forall|j: int| 0 <= j < i ==> a@[j] == b@[j],
        decreases a.len() - i,
    {
        if a[i] != b[i] {
            return false;
        }
        i = i + 1;
    }
    proof {
        assert(a@ =~= b@);
    }
    true
}

/// The storage key for `index` under `prefix`: the prefix bytes followed
/// by the index in four-byte little-endian form.
pub fn lookup_key(prefix: &Vec<u8>, index: u32) -> (r: Vec<u8>)
    ensures
        r@ == key_of(prefix@, index),
{
    let mut r = copy_bytes(prefix);
    let tail = le32_bytes(index);
    let mut i: usize = 0;
    while i < tail.len()
        invariant
            i <= tail.len(),
            tail@ == le32(index),
            r@ =~= prefix@ + tail@.subrange(0, i as int),
        decreases tail.len() - i,
    {
        r.push(tail[i]);
        i = i + 1;
    }
    proof {
        assert(r@ =~= key_of(prefix@, index));
    }
    r
}

} // verus!
