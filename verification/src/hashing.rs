//! Byte-level helpers: the big-endian encoding of a balance, the
//! concatenation of two digests, and the SHA-256 digest itself.

use sha2::{Digest, Sha256};
use vstd::prelude::*;

verus! {

/// The SHA-256 digest of a byte string.
pub uninterp spec fn sha256(data: Seq<u8>) -> Seq<u8>;

/// The eight bytes of `x`, most significant first.
pub open spec fn be_bytes(x: u64) -> Seq<u8> {
    seq![
        ((x >> 56) & 0xff) as u8,
        ((x >> 48) & 0xff) as u8,
        ((x >> 40) & 0xff) as u8,
        ((x >> 32) & 0xff) as u8,
        ((x >> 24) & 0xff) as u8,
        ((x >> 16) & 0xff) as u8,
        ((x >> 8) & 0xff) as u8,
        (x & 0xff) as u8,
    ]
}

/// Read as a number in base 256, most significant digit first, the eight
/// bytes give the balance back: the encoding loses nothing.
pub proof fn lemma_be_bytes_value(x: u64)
    ensures
        be_bytes(x).len() == 8,
        x == ((((((be_bytes(x)[0] as int * 256 + be_bytes(x)[1]) * 256 + be_bytes(x)[2]) * 256
            + be_bytes(x)[3]) * 256 + be_bytes(x)[4]) * 256 + be_bytes(x)[5]) * 256 + be_bytes(
            x,
        )[6]) * 256 + be_bytes(x)[7],
{
    let b0 = ((x >> 56) & 0xff) as u8;
    let b1 = ((x >> 48) & 0xff) as u8;
    let b2 = ((x >> 40) & 0xff) as u8;
    let b3 = ((x >> 32) & 0xff) as u8;
    let b4 = ((x >> 24) & 0xff) as u8;
    let b5 = ((x >> 16) & 0xff) as u8;
    let b6 = ((x >> 8) & 0xff) as u8;
    let b7 = (x & 0xff) as u8;
    assert(x == (((((((b0 as u64) * 256 + (b1 as u64)) * 256 + (b2 as u64)) * 256 + (b3 as u64))
        * 256 + (b4 as u64)) * 256 + (b5 as u64)) * 256 + (b6 as u64)) * 256 + (b7 as u64))
        by (bit_vector)
        requires
            b0 == ((x >> 56) & 0xff) as u8,
            b1 == ((x >> 48) & 0xff) as u8,
            b2 == ((x >> 40) & 0xff) as u8,
            b3 == ((x >> 32) & 0xff) as u8,
            b4 == ((x >> 24) & 0xff) as u8,
            b5 == ((x >> 16) & 0xff) as u8,
            b6 == ((x >> 8) & 0xff) as u8,
            b7 == (x & 0xff) as u8,
    ;
}

/// Hashes `slice` with `Digest::digest` of `sha2::Sha256`. The contract is
/// taken on trust: it names the result as the SHA-256 digest of the bytes
/// handed in, a function of those bytes alone, and claims nothing about its
/// value.
#[verifier::external_body]
pub(crate) fn hash_bytes(slice: &[u8]) -> (r: [u8; 32])
    ensures
        r@ == sha256(slice@),
{
    Sha256::digest(slice).into()
}

/// Encodes a balance as its eight big-endian bytes.
pub fn int_to_u8_slice(number: u64) -> (r: [u8; 8])
    ensures
        r@ == be_bytes(number),
{
    let r: [u8; 8] = [
        ((number >> 56) & 0xff) as u8,
        ((number >> 48) & 0xff) as u8,
        ((number >> 40) & 0xff) as u8,
        ((number >> 32) & 0xff) as u8,
        ((number >> 24) & 0xff) as u8,
        ((number >> 16) & 0xff) as u8,
        ((number >> 8) & 0xff) as u8,
        (number & 0xff) as u8,
    ];
    assert(r@ =~= be_bytes(number));
    r
}

/// Concatenates two digests, `arr1` first, into one 64-byte block.
pub fn merge_u8_arrays(arr1: [u8; 32], arr2: [u8; 32]) -> (merged: [u8; 64])
    ensures
        merged@ == arr1@ + arr2@,
{
    let mut merged: [u8; 64] = [0; 64];
    let mut i: usize = 0;
    while i < 32
        invariant
            i <= 32,
            forall|j: int| 0 <= j < i ==> merged@[j] == arr1@[j],
            forall|j: int| 0 <= j < i ==> merged@[j + 32] == arr2@[j],
        decreases 32 - i,
    {
        merged[i] = arr1[i];
        merged[i + 32] = arr2[i];
        i += 1;
    }
    assert(merged@ =~= arr1@ + arr2@);
    merged
}

} // verus!
