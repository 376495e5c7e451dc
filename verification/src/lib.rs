//! Probabilistic set-membership filters.
//!
//! A Bloom filter answers "possibly present" or "definitely absent" for a
//! stream of inserted items, trading a bounded false-positive rate for
//! sub-linear memory. This crate provides the fixed-size filter
//! ([`BloomFilter`]), a dynamically scaling chain of filters, a
//! time-decaying slice-based variant and the bounded double-ended queue
//! that backs it.
//!
//! False-positive rates are parts per million (ppm): a target rate of 1%
//! is `10_000` ppm. Items are byte slices: any type convertible to a
//! canonical byte representation can be stored. All parameter mathematics
//! is carried out in Q32.32 fixed-point arithmetic, see [`params`].
use vstd::arithmetic::div_mod::*;
use vstd::arithmetic::mul::*;
use vstd::prelude::*;

pub mod age;
pub mod bits;
pub mod dynamic;
pub mod hashes;
pub mod params;
pub mod queue;

use crate::bits::{bits_of, bv_from_elem, bv_get, bv_len, bv_set};
use crate::hashes::{
    murmur3_128, spec_bit_index, spec_hash_at, spec_hash_count, spec_is_hash_index, spooky_128,
    HASH_PRIME, MAX_ITEM_BYTES,
};
use crate::params::{
    exp_neg_q32, lemma_derived_capacity_at_least_expected, lemma_rate_log_bounds, rate_log_q32,
    spec_capacity_from_fp_size, spec_fp_from_capacity_size, spec_optimal_k,
    spec_size_from_fp_capacity, LN2SQ_Q32, LN2_Q32, Q32_ONE, RATE_LOG_MIN,
};

verus! {

/// Largest expected item count accepted at construction. With the
/// coarse `RATE_LOG_MAX` bound the proofs use, sixteen million items
/// keep the derived size below 2^28 bytes, so `size * 8` stays well
/// within a 32-bit `usize` on every architecture.
pub const MAX_EXPECTED: u64 = 16_000_000;

/// Largest filter size in bytes accepted by the parameter calculations.
pub const MAX_FILTER_BYTES: u64 = 0x100_0000_0000;

/// Whether every one of the first `k` derived bit indices of `item` is
/// set in `bits`: the membership criterion of a Bloom filter.
pub open spec fn spec_contains(bits: Seq<bool>, item: Seq<u8>, k: int) -> bool {
    forall|i: int| 0 <= i < k ==> bits[spec_bit_index(item, i, bits.len() as int)]
}

/// `bits` with the first `k` derived indices of `item` set true and
/// every other bit unchanged: the effect of one insertion.
pub open spec fn spec_add_bits(bits: Seq<bool>, item: Seq<u8>, k: int) -> Seq<bool> {
    Seq::new(bits.len(), |j: int| bits[j] || spec_is_hash_index(item, k, bits.len() as int, j))
}

/// Law (no false negatives, insertion): an item is contained in the
/// array right after its own insertion.
pub proof fn lemma_added_item_contained(bits: Seq<bool>, item: Seq<u8>, k: int)
    requires
        bits.len() >= 1,
    ensures
        spec_contains(spec_add_bits(bits, item, k), item, k),
{
    let nb = spec_add_bits(bits, item, k);
    assert forall|i: int| 0 <= i < k implies nb[spec_bit_index(item, i, nb.len() as int)] by {
        let j = spec_bit_index(item, i, bits.len() as int);
        lemma_mod_bound(spec_hash_at(item, i) as int, bits.len() as int);
        assert(spec_is_hash_index(item, k, bits.len() as int, j));
    }
}

/// Law (no false negatives, preservation): an insertion only sets bits,
/// so every item contained before stays contained, with no bound on how
/// many further items are inserted.
pub proof fn lemma_add_preserves_membership(
    bits: Seq<bool>,
    contained: Seq<u8>,
    added: Seq<u8>,
    k: int,
)
    requires
        bits.len() >= 1,
        spec_contains(bits, contained, k),
    ensures
        spec_contains(spec_add_bits(bits, added, k), contained, k),
{
    let nb = spec_add_bits(bits, added, k);
    assert forall|i: int| 0 <= i < k implies nb[spec_bit_index(contained, i, nb.len() as int)] by {
        let j = spec_bit_index(contained, i, bits.len() as int);
        lemma_mod_bound(spec_hash_at(contained, i) as int, bits.len() as int);
        assert(bits[j]);
    }
}

/// A fixed-size Bloom filter: one bit array, its parameters, and a count
/// of insertions. Bits are only ever set, never cleared.
pub struct BloomFilter {
    pub array: bit_vec::BitVec,
    pub size: usize,
    pub k: u64,
    pub capacity: u64,
    pub stored_items: u64,
    pub fp_ppm: u64,
}

impl BloomFilter {
    /// The bits currently held.
    pub open spec fn spec_bits(self) -> Seq<bool> {
        bits_of(self.array)
    }

    pub open spec fn spec_size(self) -> usize {
        self.size
    }

    pub open spec fn spec_k(self) -> u64 {
        self.k
    }

    pub open spec fn spec_capacity(self) -> u64 {
        self.capacity
    }

    pub open spec fn spec_stored(self) -> u64 {
        self.stored_items
    }

    pub open spec fn spec_fp_ppm(self) -> u64 {
        self.fp_ppm
    }

    /// Well-formedness: the array length matches the configured size and
    /// all parameters are in the ranges construction established.
    pub open spec fn wf(self) -> bool {
        &&& bits_of(self.array).len() == self.size * 8
        &&& 1 <= self.size
        &&& self.size as int <= MAX_FILTER_BYTES
        &&& self.size * 8 <= usize::MAX
        &&& self.k <= 0xFFFF_FFFF
        &&& 1 <= self.fp_ppm < 1_000_000
        &&& 1 <= self.capacity
    }

    /// Whether the filter reports `item` as contained.
    pub open spec fn spec_contains_item(self, item: Seq<u8>) -> bool {
        spec_contains(bits_of(self.array), item, self.k as int)
    }

    /// Whether this filter is exactly a fresh, empty filter derived for
    /// the given rate and expected count, as `with_fp_size` builds one.
    pub open spec fn spec_fresh_for(self, fp_ppm: u64, expected: u64) -> bool {
        &&& self.fp_ppm == fp_ppm
        &&& self.size == spec_size_from_fp_capacity(fp_ppm as nat, expected as nat)
        &&& self.k == spec_optimal_k(self.size as nat, expected as nat)
        &&& self.capacity == spec_capacity_from_fp_size(fp_ppm as nat, self.size as nat)
        &&& self.stored_items == 0
        &&& bits_of(self.array) == Seq::new((self.size * 8) as nat, |i: int| false)
    }

    /// Bytes needed to hold `expected` items at rate `fp_ppm`.
    pub fn calculate_size_from_fp_capacity(fp_ppm: u64, expected: u64) -> (r: usize)
        requires
            1 <= fp_ppm < 1_000_000,
            1 <= expected <= MAX_EXPECTED,
        ensures
            r == spec_size_from_fp_capacity(fp_ppm as nat, expected as nat),
            1 <= r <= 0x1000_0000,
    {
        let d = rate_log_q32(fp_ppm);
        proof {
            lemma_rate_log_bounds(fp_ppm as nat);
            lemma_mul_upper_bound(expected as int, 16_000_000, d as int, 0x40_0000_0000);
            lemma_mul_inequality(1, expected as int, d as int);
            lemma_mul_basics(d as int);
        }
        let a: u128 = (expected as u128) * (d as u128);
        let c1: u128 = (a + (LN2SQ_Q32 - 1) as u128) / (LN2SQ_Q32 as u128);
        proof {
            lemma_div_is_ordered(
                LN2SQ_Q32 as int,
                a as int + (LN2SQ_Q32 - 1) as int,
                LN2SQ_Q32 as int,
            );
            lemma_div_by_self(LN2SQ_Q32 as int);
            lemma_div_is_ordered(
                a as int + (LN2SQ_Q32 - 1) as int,
                4398046513167529981,
                LN2SQ_Q32 as int,
            );
            lemma_fundamental_div_mod_converse_div(
                4398046513167529981,
                2063529982,
                2131321837,
                1226713047,
            );
        }
        let r128: u128 = (c1 + 7) / 8;
        proof {
            lemma_div_is_ordered(8, c1 as int + 7, 8);
            lemma_div_by_self(8);
            lemma_div_is_ordered(c1 as int + 7, 2131321844, 8);
            lemma_fundamental_div_mod_converse_div(2131321844, 8, 266415230, 4);
        }
        (r128 as u32) as usize
    }

    /// Items a filter of `bytes` bytes can hold at rate `fp_ppm` while
    /// keeping the rate; the result can be zero for tiny filters.
    pub fn calculate_capacity_from_fp_size(fp_ppm: u64, bytes: usize) -> (r: u64)
        requires
            1 <= fp_ppm < 1_000_000,
            1 <= bytes,
            bytes as int <= MAX_FILTER_BYTES,
        ensures
            r == spec_capacity_from_fp_size(fp_ppm as nat, bytes as nat),
    {
        let d = rate_log_q32(fp_ppm);
        proof {
            lemma_rate_log_bounds(fp_ppm as nat);
        }
        let bits128: u128 = (bytes as u128) * 8;
        proof {
            lemma_mul_inequality(bits128 as int, 0x800_0000_0000, LN2SQ_Q32 as int);
        }
        let x: u128 = bits128 * (LN2SQ_Q32 as u128);
        proof {
            lemma_div_is_ordered_by_denominator(x as int, RATE_LOG_MIN as int, d as int);
            lemma_div_is_ordered(x as int, 18151001675787199840256, 2862);
            lemma_fundamental_div_mod_converse_div(
                18151001675787199840256,
                2862,
                6342069069108036282,
                1172,
            );
        }
        let cap128: u128 = x / (d as u128);
        cap128 as u64
    }

    /// Estimated false-positive rate in ppm of a filter of `bytes` bytes
    /// holding `capacity` items.
    pub fn calculate_fp_from_capacity_size(bytes: usize, capacity: u64) -> (r: u64)
        requires
            1 <= bytes,
            bytes as int <= MAX_FILTER_BYTES,
            1 <= capacity,
        ensures
            r == spec_fp_from_capacity_size(bytes as nat, capacity as nat),
            r <= 1_000_000,
    {
        let bits128: u128 = (bytes as u128) * 8;
        proof {
            lemma_mul_inequality(bits128 as int, 0x800_0000_0000, LN2SQ_Q32 as int);
        }
        let x: u128 = bits128 * (LN2SQ_Q32 as u128) / (capacity as u128);
        let e = exp_neg_q32(x);
        let num: u128 = (e as u128) * 1_000_000 + 0x8000_0000;
        proof {
            lemma_mul_inequality(e as int, 0x1_0000_0000, 1_000_000);
            lemma_div_is_ordered(num as int, 4294969443483648, 0x1_0000_0000);
            lemma_fundamental_div_mod_converse_div(
                4294969443483648,
                0x1_0000_0000,
                1_000_000,
                0x8000_0000,
            );
        }
        (num / 0x1_0000_0000) as u64
    }

    /// Optimal number of hash passes for `bytes` bytes and `capacity`
    /// items: `round(ln(2) * bits / capacity)`.
    pub fn calculate_k(bytes: usize, capacity: u64) -> (r: u64)
        requires
            1 <= bytes,
            bytes as int <= MAX_FILTER_BYTES,
            1 <= capacity,
        ensures
            r == spec_optimal_k(bytes as nat, capacity as nat),
            r as int <= ((bytes as int) * 8 * (LN2_Q32 as int)) / 0x1_0000_0000 + 1,
    {
        let bits128: u128 = (bytes as u128) * 8;
        proof {
            lemma_mul_inequality(bits128 as int, 0x800_0000_0000, LN2_Q32 as int);
        }
        let num: u128 = bits128 * (LN2_Q32 as u128);
        proof {
            lemma_mul_inequality(capacity as int, 0xFFFF_FFFF_FFFF_FFFF, Q32_ONE as int);
        }
        let den: u128 = (capacity as u128) * (Q32_ONE as u128);
        proof {
            lemma_mul_inequality(1, capacity as int, Q32_ONE as int);
            lemma_mul_basics(Q32_ONE as int);
            // round(num / den) <= num / den + 1
            lemma_div_is_ordered(
                (num + den / 2) as int,
                num as int + den as int,
                den as int,
            );
            lemma_div_plus_one(num as int, den as int);
            lemma_div_is_ordered_by_denominator(num as int, 0x1_0000_0000, den as int);
            // and num / 2^32 fits u64 comfortably
            lemma_div_is_ordered(num as int, 26186360106962099634176, 0x1_0000_0000);
            lemma_fundamental_div_mod_converse_div(
                26186360106962099634176,
                0x1_0000_0000,
                6096987078656,
                0,
            );
        }
        let r128: u128 = (num + den / 2) / den;
        r128 as u64
    }

    /// A filter with explicit size, hash count and target rate. The
    /// derived capacity must be positive, else the parameters are too
    /// small to make a usable filter.
    pub fn with_parameters(size: usize, k: u64, fp_ppm: u64) -> (r: BloomFilter)
        requires
            1 <= size,
            size as int <= MAX_FILTER_BYTES,
            size * 8 <= usize::MAX,
            k <= 0xFFFF_FFFF,
            1 <= fp_ppm < 1_000_000,
            spec_capacity_from_fp_size(fp_ppm as nat, size as nat) >= 1,
        ensures
            r.wf(),
            r.spec_size() == size,
            r.spec_k() == k,
            r.spec_fp_ppm() == fp_ppm,
            r.spec_stored() == 0,
            r.spec_capacity() == spec_capacity_from_fp_size(fp_ppm as nat, size as nat),
            r.spec_bits() == Seq::new((size * 8) as nat, |i: int| false),
    {
        let capacity = Self::calculate_capacity_from_fp_size(fp_ppm, size);
        let nbits = size * 8;
        let array = bv_from_elem(nbits, false);
        BloomFilter { array, size, k, capacity, stored_items: 0, fp_ppm }
    }

    /// Same as `with_parameters`.
    pub fn new(size: usize, k: u64, fp_ppm: u64) -> (r: BloomFilter)
        requires
            1 <= size,
            size as int <= MAX_FILTER_BYTES,
            size * 8 <= usize::MAX,
            k <= 0xFFFF_FFFF,
            1 <= fp_ppm < 1_000_000,
            spec_capacity_from_fp_size(fp_ppm as nat, size as nat) >= 1,
        ensures
            r.wf(),
            r.spec_size() == size,
            r.spec_k() == k,
            r.spec_fp_ppm() == fp_ppm,
            r.spec_stored() == 0,
            r.spec_capacity() == spec_capacity_from_fp_size(fp_ppm as nat, size as nat),
            r.spec_bits() == Seq::new((size * 8) as nat, |i: int| false),
    {
        Self::with_parameters(size, k, fp_ppm)
    }

    /// A filter sized for a target rate and an expected item count; the
    /// size and the hash count are derived, and the derived capacity is
    /// at least `expected`.
    pub fn with_fp_size(fp_ppm: u64, expected: u64) -> (r: BloomFilter)
        requires
            1 <= fp_ppm < 1_000_000,
            1 <= expected <= MAX_EXPECTED,
        ensures
            r.wf(),
            r.spec_fp_ppm() == fp_ppm,
            r.spec_size() == spec_size_from_fp_capacity(fp_ppm as nat, expected as nat),
            r.spec_k() == spec_optimal_k(r.spec_size() as nat, expected as nat),
            r.spec_stored() == 0,
            r.spec_capacity() == spec_capacity_from_fp_size(fp_ppm as nat, r.spec_size() as nat),
            r.spec_capacity() >= expected,
            r.spec_bits() == Seq::new((r.spec_size() * 8) as nat, |i: int| false),
            r.spec_fresh_for(fp_ppm, expected),
    {
        let size = Self::calculate_size_from_fp_capacity(fp_ppm, expected);
        let k = Self::calculate_k(size, expected);
        proof {
            lemma_derived_capacity_at_least_expected(fp_ppm as nat, expected as nat);
            // k fits u32: size <= 2^28, so bits * ln2 / 2^32 + 1 < 2^32
            lemma_mul_inequality((size as int) * 8, 0x8000_0000, LN2_Q32 as int);
            lemma_div_is_ordered(
                (size as int) * 8 * (LN2_Q32 as int),
                6393154322988793856,
                0x1_0000_0000,
            );
            lemma_fundamental_div_mod_converse_div(
                6393154322988793856,
                0x1_0000_0000,
                1488522236,
                0,
            );
        }
        Self::with_parameters(size, k, fp_ppm)
    }

    /// The configured rate before any insertion, the estimated current
    /// rate from size and stored count after; non-decreasing as items
    /// are added to the fixed-size array.
    pub open spec fn spec_current_fp(self) -> int {
        if self.stored_items == 0 {
            self.fp_ppm as int
        } else {
            spec_fp_from_capacity_size(self.size as nat, self.stored_items as nat)
        }
    }

    /// Current false-positive rate estimate in ppm.
    pub fn fp(&self) -> (r: u64)
        requires
            self.wf(),
        ensures
            r == self.spec_current_fp(),
    {
        if self.stored_items == 0 {
            self.fp_ppm
        } else {
            Self::calculate_fp_from_capacity_size(self.size, self.stored_items)
        }
    }

    /// Total capacity: the number of items the filter is rated for.
    pub fn capacity(&self) -> (r: u64)
        ensures
            r == self.spec_capacity(),
    {
        self.capacity
    }

    /// Number of bits in the array.
    pub fn bits(&self) -> (r: usize)
        requires
            self.wf(),
        ensures
            r == self.spec_bits().len(),
            r == self.spec_size() * 8,
    {
        bv_len(&self.array)
    }

    /// Number of items stored so far.
    pub fn stored(&self) -> (r: u64)
        ensures
            r == self.spec_stored(),
    {
        self.stored_items
    }

    /// The `k` hash values for an item (at least four are derived).
    fn compute_hashes(&self, item: &[u8]) -> (r: Vec<u64>)
        requires
            self.wf(),
            item@.len() <= MAX_ITEM_BYTES,
        ensures
            r@.len() == spec_hash_count(self.k as int),
            forall|m: int| 0 <= m < r@.len() ==> r@[m] == spec_hash_at(item@, m),
    {
        let mut result: Vec<u64> = Vec::new();
        let h1 = murmur3_128(item);
        result.push((h1 % 0x1_0000_0000_0000_0000) as u64);
        result.push((h1 / 0x1_0000_0000_0000_0000) as u64);
        let h2 = spooky_128(item);
        result.push((h2 % 0x1_0000_0000_0000_0000) as u64);
        result.push((h2 / 0x1_0000_0000_0000_0000) as u64);
        let mut i: u64 = 4;
        while i < self.k
            invariant
                4 <= i,
                i as int <= spec_hash_count(self.k as int),
                self.k > 4 ==> i <= self.k,
                result@.len() == i,
                forall|m: int| 0 <= m < i ==> result@[m] == spec_hash_at(item@, m),
            decreases self.k - i,
        {
            let hi1 = result[1];
            let hi2 = result[3];
            proof {
                lemma_mul_upper_bound(
                    hi2 as int,
                    0xFFFF_FFFF_FFFF_FFFF,
                    i as int,
                    0xFFFF_FFFF_FFFF_FFFF,
                );
            }
            let v = ((hi1 as u128 + ((hi2 as u128) * (i as u128)) % 0x1_0000_0000_0000_0000 % (
            HASH_PRIME as u128)) % 0x1_0000_0000_0000_0000) as u64;
            result.push(v);
            i = i + 1;
        }
        result
    }

    /// Inserts an item: sets the item's `k` derived bits and counts the
    /// insertion. After the call the item is contained, and everything
    /// contained before stays contained.
    pub fn add(&mut self, item: &[u8])
        requires
            old(self).wf(),
            old(self).spec_stored() < u64::MAX,
            item@.len() <= MAX_ITEM_BYTES,
        ensures
            final(self).wf(),
            final(self).spec_size() == old(self).spec_size(),
            final(self).spec_k() == old(self).spec_k(),
            final(self).spec_capacity() == old(self).spec_capacity(),
            final(self).spec_fp_ppm() == old(self).spec_fp_ppm(),
            final(self).spec_stored() == old(self).spec_stored() + 1,
            final(self).spec_bits() == spec_add_bits(
                old(self).spec_bits(),
                item@,
                old(self).spec_k() as int,
            ),
            final(self).spec_contains_item(item@),
            forall|other: Seq<u8>|
                old(self).spec_contains_item(other) ==> final(self).spec_contains_item(other),
    {
        let ghost old_bits = bits_of(self.array);
        let hashes = self.compute_hashes(item);
        let nbits = self.bits();
        let mut i: u64 = 0;
        while i < self.k
            invariant
                i <= self.k,
                self.k == old(self).k,
                self.size == old(self).size,
                self.capacity == old(self).capacity,
                self.fp_ppm == old(self).fp_ppm,
                self.stored_items == old(self).stored_items,
                self.wf(),
                nbits == self.size * 8,
                nbits >= 1,
                old_bits == bits_of(old(self).array),
                old_bits.len() == nbits,
                bits_of(self.array).len() == nbits,
                hashes@.len() == spec_hash_count(self.k as int),
                forall|m: int| 0 <= m < hashes@.len() ==> hashes@[m] == spec_hash_at(item@, m),
                forall|j: int|
                    0 <= j < nbits ==> bits_of(self.array)[j] == (old_bits[j]
                        || spec_is_hash_index(item@, i as int, nbits as int, j)),
            decreases self.k - i,
        {
            let idx64 = hashes[i as usize] % (nbits as u64);
            proof {
                lemma_mod_bound(hashes@[i as int] as int, nbits as int);
                assert(hashes@[i as int] == spec_hash_at(item@, i as int));
                assert(idx64 as int == spec_bit_index(item@, i as int, nbits as int));
            }
            let idx = idx64 as usize;
            proof {
                assert(idx as int == spec_bit_index(item@, i as int, nbits as int));
            }
            let ghost pre_bits = bits_of(self.array);
            proof {
                assert(forall|j: int|
                    0 <= j < nbits ==> pre_bits[j] == (old_bits[j] || spec_is_hash_index(
                        item@,
                        i as int,
                        nbits as int,
                        j,
                    )));
            }
            bv_set(&mut self.array, idx, true);
            proof {
                assert(bits_of(self.array) == pre_bits.update(idx as int, true));
                assert forall|j: int| 0 <= j < nbits implies bits_of(self.array)[j] == (old_bits[j]
                    || spec_is_hash_index(item@, i as int + 1, nbits as int, j)) by {
                    if j == idx as int {
                        assert(bits_of(self.array)[j]);
                        assert(j == spec_bit_index(item@, i as int, nbits as int));
                        assert(spec_is_hash_index(item@, i as int + 1, nbits as int, j));
                    } else {
                        assert(bits_of(self.array)[j] == pre_bits[j]);
                        assert(pre_bits[j] == (old_bits[j] || spec_is_hash_index(
                            item@,
                            i as int,
                            nbits as int,
                            j,
                        )));
                        if spec_is_hash_index(item@, i as int, nbits as int, j) {
                            let w = choose|w: int|
                                0 <= w < i as int && j == spec_bit_index(item@, w, nbits as int);
                            assert(0 <= w < i as int + 1 && j == spec_bit_index(
                                item@,
                                w,
                                nbits as int,
                            ));
                            assert(spec_is_hash_index(item@, i as int + 1, nbits as int, j));
                        }
                        if spec_is_hash_index(item@, i as int + 1, nbits as int, j) {
                            let w = choose|w: int|
                                0 <= w < i as int + 1 && j == spec_bit_index(
                                    item@,
                                    w,
                                    nbits as int,
                                );
                            if w == i as int {
                                assert(j == spec_bit_index(item@, i as int, nbits as int));
                                assert(false);
                            }
                            assert(0 <= w < i as int && j == spec_bit_index(
                                item@,
                                w,
                                nbits as int,
                            ));
                            assert(spec_is_hash_index(item@, i as int, nbits as int, j));
                        }
                    }
                }
            }
            i = i + 1;
        }
        self.stored_items = self.stored_items + 1;
        proof {
            assert(bits_of(self.array) =~= spec_add_bits(old_bits, item@, self.k as int));
            lemma_added_item_contained(old_bits, item@, self.k as int);
            assert forall|other: Seq<u8>|
                old(self).spec_contains_item(other) implies self.spec_contains_item(other) by {
                lemma_add_preserves_membership(old_bits, other, item@, self.k as int);
            }
        }
    }

    /// Membership query: true only when every one of the item's `k`
    /// derived bits is set. Never false for an item previously added;
    /// spuriously true with probability bounded by the configured rate.
    pub fn get(&self, item: &[u8]) -> (r: bool)
        requires
            self.wf(),
            item@.len() <= MAX_ITEM_BYTES,
        ensures
            r == self.spec_contains_item(item@),
    {
        let hashes = self.compute_hashes(item);
        let nbits = self.bits();
        let mut result = true;
        let mut i: u64 = 0;
        while i < self.k
            invariant
                i <= self.k,
                self.wf(),
                nbits == self.size * 8,
                nbits >= 1,
                hashes@.len() == spec_hash_count(self.k as int),
                forall|m: int| 0 <= m < hashes@.len() ==> hashes@[m] == spec_hash_at(item@, m),
                result == (forall|m: int|
                    0 <= m < i ==> bits_of(self.array)[spec_bit_index(item@, m, nbits as int)]),
            decreases self.k - i,
        {
            let idx64 = hashes[i as usize] % (nbits as u64);
            proof {
                lemma_mod_bound(hashes@[i as int] as int, nbits as int);
            }
            let b = bv_get(&self.array, idx64 as usize);
            let ghost pre_result = result;
            if !b.unwrap() {
                result = false;
            }
            proof {
                let gi = i as int;
                if pre_result && b.unwrap() {
                    assert forall|m: int|
                        0 <= m < gi + 1 implies bits_of(self.array)[spec_bit_index(
                        item@,
                        m,
                        nbits as int,
                    )] by {
                        if m < gi {
                        } else {
                            assert(m == gi);
                        }
                    }
                } else {
                    if !b.unwrap() {
                        assert(!bits_of(self.array)[spec_bit_index(item@, gi, nbits as int)]);
                    }
                }
            }
            i = i + 1;
        }
        result
    }
}

} // verus!
