//! Hash derivation.
//!
//! Each item is hashed with two independent 128-bit hash functions of the
//! fasthash crate. Their four 64-bit halves give the first four hash
//! values; further values come from the double-hashing extension
//! `g_i = h1_hi + (h2_hi * i mod P) mod 2^64`, with `P` the largest prime
//! below 2^64. The derivation is deterministic: identical bytes always
//! yield identical index sequences, which is what makes `add` and `get`
//! symmetric.
use vstd::prelude::*;

verus! {

/// The largest prime below 2^64, the modulus of the extension.
pub const HASH_PRIME: u64 = 0xffff_ffff_ffff_ffc5;

/// Longest item the hash boundary accepts. The murmur3 binding narrows
/// the length to a 32-bit C `int`; longer inputs would reach the C code
/// with a negative length and read out of bounds.
pub const MAX_ITEM_BYTES: usize = 0x7FFF_FFFF;

/// What fasthash's MurmurHash3 x64 128-bit function returns on a byte
/// sequence of at most `MAX_ITEM_BYTES` bytes (the only lengths its
/// wrapper admits); a function of the bytes alone.
pub uninterp spec fn mmr3_of(bytes: Seq<u8>) -> u128;

/// What fasthash's SpookyHash 128-bit function returns on a byte
/// sequence; a function of the bytes alone.
pub uninterp spec fn spooky_of(bytes: Seq<u8>) -> u128;

/// Relies on fasthash::murmur3::Hash128_x64: the MurmurHash3 x64 128-bit
/// digest of the bytes with seed 0, a pure function of the bytes. The
/// binding passes the length as a C `int`, so only items below 2^31
/// bytes are admitted.
#[verifier::external_body]
pub(crate) fn murmur3_128(item: &[u8]) -> (r: u128)
    requires
        item@.len() <= MAX_ITEM_BYTES,
    ensures
        r == mmr3_of(item@),
{
    <fasthash::murmur3::Hash128_x64 as fasthash::FastHash>::hash(item)
}

/// Relies on fasthash::spooky::Hash128: the SpookyHash 128-bit digest of
/// the bytes with seed 0, a pure function of the bytes.
#[verifier::external_body]
pub(crate) fn spooky_128(item: &[u8]) -> (r: u128)
    ensures
        r == spooky_of(item@),
{
    <fasthash::spooky::Hash128 as fasthash::FastHash>::hash(item)
}

/// The `i`-th 64-bit hash value derived for an item: the four halves of
/// the two base hashes for `i < 4`, the double-hashing extension beyond.
pub open spec fn spec_hash_at(item: Seq<u8>, i: int) -> u64 {
    let h1 = mmr3_of(item);
    let h2 = spooky_of(item);
    let lo1 = (h1 % 0x1_0000_0000_0000_0000) as u64;
    let hi1 = (h1 / 0x1_0000_0000_0000_0000) as u64;
    let lo2 = (h2 % 0x1_0000_0000_0000_0000) as u64;
    let hi2 = (h2 / 0x1_0000_0000_0000_0000) as u64;
    if i == 0 {
        lo1
    } else if i == 1 {
        hi1
    } else if i == 2 {
        lo2
    } else if i == 3 {
        hi2
    } else {
        ((hi1 + (hi2 * i) % 0x1_0000_0000_0000_0000 % (HASH_PRIME as int))
            % 0x1_0000_0000_0000_0000) as u64
    }
}

/// The bit index the `i`-th hash value selects in an array of `nbits` bits.
pub open spec fn spec_bit_index(item: Seq<u8>, i: int, nbits: int) -> int {
    spec_hash_at(item, i) as int % nbits
}

/// Whether bit `j` is one of the first `k` derived indices of `item`.
pub open spec fn spec_is_hash_index(item: Seq<u8>, k: int, nbits: int, j: int) -> bool {
    exists|i: int| 0 <= i < k && j == spec_bit_index(item, i, nbits)
}

/// The first four derived values followed by the extension up to `k`;
/// at least four values are always derived.
pub open spec fn spec_hash_count(k: int) -> int {
    if k < 4 {
        4
    } else {
        k
    }
}

} // verus!
