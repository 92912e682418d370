//! Big-endian encoding of the 8-byte length prefix that opens every row slot.
use vstd::prelude::*;

verus! {

/// The eight big-endian bytes of `n`, most significant first.
pub open spec fn spec_u64_to_be_bytes(n: u64) -> Seq<u8> {
    seq![
        (n >> 56u64) as u8,
        (n >> 48u64) as u8,
        (n >> 40u64) as u8,
        (n >> 32u64) as u8,
        (n >> 24u64) as u8,
        (n >> 16u64) as u8,
        (n >> 8u64) as u8,
        n as u8,
    ]
}

/// The number whose big-endian bytes are the first eight bytes of `b`.
pub open spec fn spec_u64_from_be_bytes(b: Seq<u8>) -> u64
    recommends
        b.len() >= 8,
{
    ((b[0] as u64) << 56u64) | ((b[1] as u64) << 48u64) | ((b[2] as u64) << 40u64) | ((
    b[3] as u64) << 32u64) | ((b[4] as u64) << 24u64) | ((b[5] as u64) << 16u64) | ((b[6] as u64)
        << 8u64) | (b[7] as u64)
}

/// Decoding the encoding of `n` gives `n` back.
pub proof fn lemma_be_bytes_roundtrip(n: u64)
    ensures
        spec_u64_from_be_bytes(spec_u64_to_be_bytes(n)) == n,
        spec_u64_to_be_bytes(n).len() == 8,
{
    let b = spec_u64_to_be_bytes(n);
    let b0 = b[0];
    let b1 = b[1];
    let b2 = b[2];
    let b3 = b[3];
    let b4 = b[4];
    let b5 = b[5];
    let b6 = b[6];
    let b7 = b[7];
    assert(((b0 as u64) << 56u64) | ((b1 as u64) << 48u64) | ((b2 as u64) << 40u64) | ((
    b3 as u64) << 32u64) | ((b4 as u64) << 24u64) | ((b5 as u64) << 16u64) | ((b6 as u64)
        << 8u64) | (b7 as u64) == n) by (bit_vector)
        requires
            b0 == (n >> 56u64) as u8,
            b1 == (n >> 48u64) as u8,
            b2 == (n >> 40u64) as u8,
            b3 == (n >> 32u64) as u8,
            b4 == (n >> 24u64) as u8,
            b5 == (n >> 16u64) as u8,
            b6 == (n >> 8u64) as u8,
            b7 == n as u8,
    ;
}

/// Eight bytes decode to zero exactly when all of them are zero.
pub proof fn lemma_be_bytes_zero(b: Seq<u8>)
    requires
        b.len() >= 8,
    ensures
        spec_u64_from_be_bytes(b) == 0 <==> (forall|i: int| 0 <= i < 8 ==> b[i] == 0u8),
{
    let b0 = b[0];
    let b1 = b[1];
    let b2 = b[2];
    let b3 = b[3];
    let b4 = b[4];
    let b5 = b[5];
    let b6 = b[6];
    let b7 = b[7];
    assert((((b0 as u64) << 56u64) | ((b1 as u64) << 48u64) | ((b2 as u64) << 40u64) | ((
    b3 as u64) << 32u64) | ((b4 as u64) << 24u64) | ((b5 as u64) << 16u64) | ((b6 as u64)
        << 8u64) | (b7 as u64) == 0) <==> (b0 == 0 && b1 == 0 && b2 == 0 && b3 == 0 && b4 == 0
        && b5 == 0 && b6 == 0 && b7 == 0)) by (bit_vector);
    if spec_u64_from_be_bytes(b) == 0 {
        assert forall|i: int| 0 <= i < 8 implies b[i] == 0u8 by {
            if i == 0 {
            } else if i == 1 {
            } else if i == 2 {
            } else if i == 3 {
            } else if i == 4 {
            } else if i == 5 {
            } else if i == 6 {
            } else {
            }
        }
    } else {
        if forall|i: int| 0 <= i < 8 ==> b[i] == 0u8 {
            assert(b[0] == 0 && b[1] == 0 && b[2] == 0 && b[3] == 0);
            assert(b[4] == 0 && b[5] == 0 && b[6] == 0 && b[7] == 0);
        }
    }
}

/// The big-endian bytes of `n`, as `u64::to_be_bytes` gives them.
pub fn u64_to_be_bytes(n: u64) -> (b: Vec<u8>)
    ensures
        b@ == spec_u64_to_be_bytes(n),
{
    let mut b: Vec<u8> = Vec::with_capacity(8);
    b.push((n >> 56u64) as u8);
    b.push((n >> 48u64) as u8);
    b.push((n >> 40u64) as u8);
    b.push((n >> 32u64) as u8);
    b.push((n >> 24u64) as u8);
    b.push((n >> 16u64) as u8);
    b.push((n >> 8u64) as u8);
    b.push(n as u8);
    assert(b@ =~= spec_u64_to_be_bytes(n));
    b
}

/// The number whose big-endian bytes start `b` at position `at`, as
/// `u64::from_be_bytes` reads them.
pub fn u64_from_be_bytes_at(b: &[u8], at: usize) -> (n: u64)
    requires
        at + 8 <= b@.len(),
    ensures
        n == spec_u64_from_be_bytes(b@.subrange(at as int, at + 8)),
{
    ((b[at] as u64) << 56u64) | ((b[at + 1] as u64) << 48u64) | ((b[at + 2] as u64) << 40u64) | ((
    b[at + 3] as u64) << 32u64) | ((b[at + 4] as u64) << 24u64) | ((b[at + 5] as u64) << 16u64)
        | ((b[at + 6] as u64) << 8u64) | (b[at + 7] as u64)
}

} // verus!
