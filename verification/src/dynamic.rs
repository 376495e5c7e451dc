//! Dynamically scaling Bloom filter.
//!
//! An ordered chain of fixed-size partitions sharing one target rate and
//! expected count. When the active (last) partition saturates, a fresh
//! partition is appended and becomes active, so insertion is unbounded
//! while each partition's false-positive rate stays bounded. The
//! saturation check is throttled: it is only evaluated once total
//! insertions exceed a tenth of the expected count, which may delay the
//! split by a few inserts but changes nothing else observable.
use vstd::prelude::*;

use crate::hashes::MAX_ITEM_BYTES;
use crate::params::{spec_capacity_from_fp_size, spec_optimal_k, spec_size_from_fp_capacity};
use crate::spec_add_bits;
use crate::BloomFilter;
use crate::MAX_EXPECTED;

verus! {

/// Usage errors reported by filter operations.
#[derive(Debug, PartialEq, Eq, Structural)]
pub enum FilterError {
    /// Two chains configured with different expected capacities cannot
    /// be merged: the aggregate rate of the union would be undefined.
    ExpectedMismatch,
}

/// An ordered chain of Bloom filter partitions; the last one is active.
pub struct DynamicBloom {
    pub filters: Vec<BloomFilter>,
    pub active_idx: usize,
    pub expected: u64,
    pub fp_ppm: u64,
    pub inserted: u64,
}

impl DynamicBloom {
    /// Well-formedness: at least one partition, the active index points
    /// at the last partition, every partition is well-formed and none
    /// has stored more items than the chain has seen.
    pub open spec fn wf(self) -> bool {
        &&& self.filters.len() >= 1
        &&& self.active_idx == self.filters.len() - 1
        &&& 1 <= self.fp_ppm < 1_000_000
        &&& 1 <= self.expected <= MAX_EXPECTED
        &&& forall|i: int| 0 <= i < self.filters.len() ==> (#[trigger] self.filters[i]).wf()
        &&& forall|i: int|
            0 <= i < self.filters.len() ==> (#[trigger] self.filters[i]).stored_items
                <= self.inserted
    }

    /// Whether any partition of the chain reports the item.
    pub open spec fn spec_contains_item(self, item: Seq<u8>) -> bool {
        exists|i: int|
            0 <= i < self.filters.len() && (#[trigger] self.filters[i]).spec_contains_item(item)
    }

    /// Whether the throttled saturation check would append a partition.
    pub open spec fn spec_would_grow(self) -> bool {
        &&& self.inserted >= self.expected / 10
        &&& self.filters[self.filters.len() - 1].stored_items >= self.filters[self.filters.len()
            - 1].capacity
    }

    /// A chain with a single empty partition sized for `expected` items
    /// at rate `fp_ppm`.
    pub fn new(expected: u64, fp_ppm: u64) -> (r: DynamicBloom)
        requires
            1 <= fp_ppm < 1_000_000,
            1 <= expected <= MAX_EXPECTED,
        ensures
            r.wf(),
            r.filters.len() == 1,
            r.expected == expected,
            r.fp_ppm == fp_ppm,
            r.inserted == 0,
            r.filters[0].spec_stored() == 0,
            r.filters[0].spec_capacity() >= expected,
            r.filters[0].spec_fresh_for(fp_ppm, expected),
    {
        let f = BloomFilter::with_fp_size(fp_ppm, expected);
        let mut filters: Vec<BloomFilter> = Vec::new();
        filters.push(f);
        DynamicBloom { filters, active_idx: 0, expected, fp_ppm, inserted: 0 }
    }

    /// Appends a fresh partition and makes it active when the current
    /// active partition has reached its capacity; otherwise changes
    /// nothing. (The throttling of this check lives in `add`.)
    fn should_resize(&mut self)
        requires
            old(self).wf(),
        ensures
            final(self).wf(),
            final(self).expected == old(self).expected,
            final(self).fp_ppm == old(self).fp_ppm,
            final(self).inserted == old(self).inserted,
            forall|i: int|
                0 <= i < old(self).filters.len() ==> final(self).filters[i] == old(
                    self,
                ).filters[i],
            old(self).filters[old(self).filters.len() - 1].stored_items >= old(
                self,
            ).filters[old(self).filters.len() - 1].capacity ==> {
                &&& final(self).filters.len() == old(self).filters.len() + 1
                &&& final(self).filters[final(self).filters.len() - 1].spec_fresh_for(
                    old(self).fp_ppm,
                    old(self).expected,
                )
                &&& final(self).filters[final(self).filters.len() - 1].spec_capacity() >= old(
                    self,
                ).expected
            },
            old(self).filters[old(self).filters.len() - 1].stored_items < old(
                self,
            ).filters[old(self).filters.len() - 1].capacity ==> *final(self) == *old(self),
    {
        let len = self.filters.len();
        let active_stored = self.filters[len - 1].stored();
        let active_capacity = self.filters[len - 1].capacity();
        if active_stored >= active_capacity {
            let f = BloomFilter::with_fp_size(self.fp_ppm, self.expected);
            self.filters.push(f);
            self.active_idx = self.active_idx + 1;
        }
    }

    /// Inserts the item into the active partition, appending a fresh
    /// partition first when the throttled saturation check fires. The
    /// item is contained afterwards, and everything contained before
    /// stays contained: the chain has no false negatives.
    pub fn add(&mut self, item: &[u8])
        requires
            old(self).wf(),
            old(self).inserted < u64::MAX,
            item@.len() <= MAX_ITEM_BYTES,
        ensures
            final(self).wf(),
            final(self).expected == old(self).expected,
            final(self).fp_ppm == old(self).fp_ppm,
            final(self).inserted == old(self).inserted + 1,
            final(self).filters.len() == old(self).filters.len() + (if old(
                self,
            ).spec_would_grow() {
                1int
            } else {
                0int
            }),
            final(self).spec_contains_item(item@),
            forall|other: Seq<u8>|
                old(self).spec_contains_item(other) ==> final(self).spec_contains_item(other),
            forall|p: int|
                0 <= p < old(self).filters.len() - 1 ==> final(self).filters[p] == old(
                    self,
                ).filters[p],
            old(self).spec_would_grow() ==> final(self).filters[old(self).filters.len() - 1]
                == old(self).filters[old(self).filters.len() - 1],
            final(self).filters[final(self).filters.len() - 1].stored_items == (if old(
                self,
            ).spec_would_grow() {
                1u64
            } else {
                (old(self).filters[old(self).filters.len() - 1].stored_items + 1) as u64
            }),
            ({
                let rf = final(self).filters[final(self).filters.len() - 1];
                let base_size = spec_size_from_fp_capacity(
                    old(self).fp_ppm as nat,
                    old(self).expected as nat,
                );
                old(self).spec_would_grow() ==> {
                    &&& rf.spec_fp_ppm() == old(self).fp_ppm
                    &&& rf.spec_size() == base_size
                    &&& rf.spec_k() == spec_optimal_k(base_size as nat, old(self).expected as nat)
                    &&& rf.spec_capacity() == spec_capacity_from_fp_size(
                        old(self).fp_ppm as nat,
                        base_size as nat,
                    )
                    &&& rf.spec_bits() == spec_add_bits(
                        Seq::new((base_size * 8) as nat, |i: int| false),
                        item@,
                        rf.spec_k() as int,
                    )
                }
            }),
            ({
                let rf = final(self).filters[final(self).filters.len() - 1];
                let ol = old(self).filters[old(self).filters.len() - 1];
                !old(self).spec_would_grow() ==> {
                    &&& rf.spec_fp_ppm() == ol.spec_fp_ppm()
                    &&& rf.spec_size() == ol.spec_size()
                    &&& rf.spec_k() == ol.spec_k()
                    &&& rf.spec_capacity() == ol.spec_capacity()
                    &&& rf.spec_bits() == spec_add_bits(ol.spec_bits(), item@, ol.spec_k() as int)
                }
            }),
    {
        let ghost pre = *self;
        if self.inserted >= self.expected / 10 {
            self.should_resize();
        }
        let ghost mid = *self;
        let mut active = self.filters.pop().unwrap();
        active.add(item);
        self.filters.push(active);
        self.inserted = self.inserted + 1;
        proof {
            let n = self.filters.len() as int;
            assert(self.filters[n - 1].spec_contains_item(item@));
            assert(self.spec_contains_item(item@));
            assert forall|other: Seq<u8>|
                pre.spec_contains_item(other) implies self.spec_contains_item(other) by {
                let w = choose|w: int|
                    0 <= w < pre.filters.len() && (#[trigger] pre.filters[w]).spec_contains_item(
                        other,
                    );
                if w < mid.filters.len() - 1 {
                    assert(self.filters[w].spec_contains_item(other));
                } else {
                    assert(mid.filters[mid.filters.len() - 1] == pre.filters[w]
                        || mid.filters[w] == pre.filters[w]);
                    if mid.filters[mid.filters.len() - 1] == pre.filters[w] {
                        assert(self.filters[n - 1].spec_contains_item(other));
                    } else {
                        assert(self.filters[w].spec_contains_item(other));
                    }
                }
            }
        }
    }

    /// Membership query: true when any partition reports the item.
    pub fn get(&self, item: &[u8]) -> (r: bool)
        requires
            self.wf(),
            item@.len() <= MAX_ITEM_BYTES,
        ensures
            r == self.spec_contains_item(item@),
    {
        let mut result = false;
        let mut i: usize = 0;
        while i < self.filters.len()
            invariant
                self.wf(),
                i <= self.filters.len(),
                item@.len() <= MAX_ITEM_BYTES,
                result == exists|m: int|
                    0 <= m < i && (#[trigger] self.filters[m]).spec_contains_item(item@),
            decreases self.filters.len() - i,
        {
            if self.filters[i].get(item) {
                result = true;
            }
            i = i + 1;
        }
        result
    }

    /// The number of partitions in the chain.
    pub fn len(&self) -> (r: usize)
        ensures
            r == self.filters.len(),
    {
        self.filters.len()
    }

    /// Read access to the partitions, oldest first.
    pub fn partitions(&self) -> (r: &Vec<BloomFilter>)
        ensures
            r == self.filters,
    {
        &self.filters
    }

    /// Verification helper: true when no partition's current measured
    /// rate exceeds the configured target.
    pub fn assert_fp(&self) -> (r: bool)
        requires
            self.wf(),
        ensures
            r == (forall|i: int|
                0 <= i < self.filters.len() ==> (#[trigger] self.filters[i]).spec_current_fp()
                    <= self.fp_ppm),
    {
        let mut ok = true;
        let mut i: usize = 0;
        while i < self.filters.len()
            invariant
                self.wf(),
                i <= self.filters.len(),
                ok == (forall|m: int|
                    0 <= m < i ==> (#[trigger] self.filters[m]).spec_current_fp() <= self.fp_ppm),
            decreases self.filters.len() - i,
        {
            if self.filters[i].fp() > self.fp_ppm {
                ok = false;
            }
            i = i + 1;
        }
        ok
    }

    /// Union: appends `other`'s partitions to this chain, consuming
    /// `other`. Both chains must have been configured with the same
    /// expected capacity; a mismatch is reported and nothing is merged.
    /// On success an item is contained in the union exactly when either
    /// chain contained it.
    pub fn extend(&mut self, other: DynamicBloom) -> (r: Result<(), FilterError>)
        requires
            old(self).wf(),
            other.wf(),
            old(self).inserted + other.inserted <= u64::MAX,
        ensures
            old(self).expected != other.expected ==> {
                &&& r == Err::<(), FilterError>(FilterError::ExpectedMismatch)
                &&& *final(self) == *old(self)
            },
            old(self).expected == other.expected ==> {
                &&& r == Ok::<(), FilterError>(())
                &&& final(self).wf()
                &&& final(self).filters@ == old(self).filters@ + other.filters@
                &&& final(self).expected == old(self).expected
                &&& final(self).fp_ppm == old(self).fp_ppm
                &&& final(self).inserted == old(self).inserted + other.inserted
                &&& forall|it: Seq<u8>|
                    #[trigger] old(self).spec_contains_item(it) ==> final(self)
                        .spec_contains_item(it)
                &&& forall|it: Seq<u8>|
                    #[trigger] other.spec_contains_item(it) ==> final(self).spec_contains_item(it)
                &&& forall|it: Seq<u8>|
                    #[trigger] final(self).spec_contains_item(it) ==> (old(self)
                        .spec_contains_item(it) || other.spec_contains_item(it))
            },
    {
        if self.expected != other.expected {
            return Err(FilterError::ExpectedMismatch);
        }
        let ghost pre = *self;
        let mut other = other;
        let ghost other0 = other;
        self.filters.append(&mut other.filters);
        self.active_idx = self.filters.len() - 1;
        self.inserted = self.inserted + other.inserted;
        proof {
            let a = pre.filters@;
            let b = other0.filters@;
            assert forall|it: Seq<u8>| #[trigger] pre.spec_contains_item(it) implies self
                .spec_contains_item(it) by {
                let w = choose|w: int|
                    0 <= w < pre.filters.len() && (
                    #[trigger] pre.filters[w]).spec_contains_item(it);
                assert(self.filters[w].spec_contains_item(it));
            }
            assert forall|it: Seq<u8>| #[trigger] other0.spec_contains_item(it) implies self
                .spec_contains_item(it) by {
                let w = choose|w: int|
                    0 <= w < other0.filters.len() && (
                    #[trigger] other0.filters[w]).spec_contains_item(it);
                assert(self.filters[a.len() + w].spec_contains_item(it));
            }
            assert forall|it: Seq<u8>| #[trigger] self.spec_contains_item(it) implies (
            pre.spec_contains_item(it) || other0.spec_contains_item(it)) by {
                let w = choose|w: int|
                    0 <= w < self.filters.len() && (
                    #[trigger] self.filters[w]).spec_contains_item(it);
                if w < a.len() {
                    assert(pre.filters[w].spec_contains_item(it));
                } else {
                    assert(other0.filters[w - a.len()].spec_contains_item(it));
                }
            }
        }
        Ok(())
    }
}

} // verus!
