//! Age-partitioned filters: membership with aging.
//!
//! Insertions are spread over a window of slices that rotates forward
//! over time; old slices retire, so old insertions are forgotten after
//! a bounded interval. Forgetting a genuinely inserted item after its
//! slices retire is the deliberate trade-off of this variant, not a
//! defect: the no-false-negative guarantee of the plain filters does
//! not apply here.
//!
//! Timestamps are plain `u64` ticks supplied by the caller; the library
//! never reads a clock itself.
use vstd::prelude::*;

use crate::bits::{bits_of, bv_from_elem};
use crate::hashes::MAX_ITEM_BYTES;
use crate::params::lemma_derived_capacity_at_least_expected;
use crate::queue::BoundedVecDeque;
use crate::BloomFilter;
use crate::MAX_EXPECTED;

verus! {

/// The position of the `j`-th slot of a window starting at `start` in a
/// cyclic sequence of `len` slots (single wraparound).
pub open spec fn spec_window_index(start: int, j: int, len: int) -> int {
    if start + j < len {
        start + j
    } else {
        start + j - len
    }
}

/// The window slot that position `p` occupies for a window anchored at
/// `start` in a cyclic sequence of `len` slots.
pub open spec fn spec_window_pos(start: int, p: int, len: int) -> int {
    if p >= start {
        p - start
    } else {
        p + len - start
    }
}

/// A filter of `k + l` fixed Bloom filters: insertions go to a window
/// of `k` filters beginning at the active index; a query succeeds when
/// some window of `k` consecutive filters among the `l + 1` possible
/// windows all report the item.
pub struct AgeBloom {
    pub filters: Vec<BloomFilter>,
    pub active_idx: usize,
    pub inserted: u64,
    pub expected: u64,
    pub fp_ppm: u64,
    pub k: u8,
    pub l: u8,
}

impl AgeBloom {
    pub open spec fn wf(self) -> bool {
        &&& 1 <= self.k
        &&& 1 <= self.l
        &&& self.filters.len() == self.k + self.l
        &&& self.active_idx < self.filters.len()
        &&& forall|i: int| 0 <= i < self.filters.len() ==> (#[trigger] self.filters[i]).wf()
        &&& forall|i: int|
            0 <= i < self.filters.len() ==> (#[trigger] self.filters[i]).stored_items
                <= self.inserted
    }

    /// Whether every slice of the window starting at `s` reports the item.
    pub open spec fn spec_window_all(self, s: int, item: Seq<u8>) -> bool {
        forall|j: int| 0 <= j < self.k ==> (#[trigger] self.filters[s + j]).spec_contains_item(item)
    }

    /// Whether some complete window of `k` consecutive slices reports
    /// the item: the k-of-l windowed membership criterion.
    pub open spec fn spec_window_hit(self, item: Seq<u8>) -> bool {
        exists|s: int| 0 <= s <= self.l && #[trigger] self.spec_window_all(s, item)
    }

    /// A fresh filter with three rotating hash slices and four extra
    /// slices, each sized for `expected` items at rate `fp_ppm`.
    pub fn new(expected: u64, fp_ppm: u64) -> (r: AgeBloom)
        requires
            1 <= fp_ppm < 1_000_000,
            1 <= expected <= MAX_EXPECTED,
        ensures
            r.wf(),
            r.k == 3,
            r.l == 4,
            r.filters.len() == 7,
            r.active_idx == 0,
            r.inserted == 0,
            r.expected == expected,
            r.fp_ppm == fp_ppm,
            forall|i: int|
                0 <= i < 7 ==> {
                    let f = #[trigger] r.filters[i];
                    &&& f.spec_stored() == 0
                    &&& f.spec_fp_ppm() == fp_ppm
                    &&& f.spec_size() == crate::params::spec_size_from_fp_capacity(
                        fp_ppm as nat,
                        expected as nat,
                    )
                    &&& f.spec_k() == 3
                    &&& f.spec_bits() == Seq::new((f.spec_size() * 8) as nat, |b: int| false)
                },
    {
        let l: u8 = 4;
        let k: u8 = 3;
        let size = BloomFilter::calculate_size_from_fp_capacity(fp_ppm, expected);
        proof {
            lemma_derived_capacity_at_least_expected(fp_ppm as nat, expected as nat);
        }
        let mut filters: Vec<BloomFilter> = Vec::new();
        let mut i: usize = 0;
        while i < 7
            invariant
                i <= 7,
                filters@.len() == i,
                1 <= size <= 0x1000_0000,
                size as int <= crate::MAX_FILTER_BYTES,
                size * 8 <= usize::MAX,
                1 <= fp_ppm < 1_000_000,
                size == crate::params::spec_size_from_fp_capacity(fp_ppm as nat, expected as nat),
                crate::params::spec_capacity_from_fp_size(fp_ppm as nat, size as nat) >= 1,
                forall|m: int|
                    0 <= m < i ==> {
                        let f = #[trigger] filters@[m];
                        &&& f.wf()
                        &&& f.spec_stored() == 0
                        &&& f.spec_fp_ppm() == fp_ppm
                        &&& f.spec_size() == size
                        &&& f.spec_k() == 3
                        &&& f.spec_bits() == Seq::new((size * 8) as nat, |b: int| false)
                    },
            decreases 7 - i,
        {
            let f = BloomFilter::with_parameters(size, 3, fp_ppm);
            filters.push(f);
            i = i + 1;
        }
        AgeBloom { filters, active_idx: 0, inserted: 0, expected, fp_ppm, k, l }
    }

    /// The indices of the active window: `k` consecutive positions
    /// beginning at the active index, wrapping around the sequence end.
    pub fn get_active_idx(&self) -> (r: Vec<usize>)
        requires
            self.wf(),
        ensures
            r@.len() == self.k as int,
            forall|j: int|
                0 <= j < self.k ==> r@[j] == spec_window_index(
                    self.active_idx as int,
                    j,
                    self.filters.len() as int,
                ),
    {
        let len = self.filters.len();
        let mut r: Vec<usize> = Vec::new();
        let mut j: usize = 0;
        while j < self.k as usize
            invariant
                self.wf(),
                j <= self.k,
                len == self.filters.len(),
                r@.len() == j,
                forall|m: int|
                    0 <= m < j ==> r@[m] == spec_window_index(
                        self.active_idx as int,
                        m,
                        len as int,
                    ),
            decreases self.k as usize - j,
        {
            let idx = if self.active_idx + j < len {
                self.active_idx + j
            } else {
                self.active_idx + j - len
            };
            r.push(idx);
            j = j + 1;
        }
        r
    }

    /// Inserts the item into each slice of the active window, so that a
    /// single conceptual insertion is physically distributed and partial
    /// aging retires it gradually.
    pub fn add(&mut self, item: &[u8])
        requires
            old(self).wf(),
            old(self).inserted < u64::MAX,
            item@.len() <= MAX_ITEM_BYTES,
        ensures
            final(self).wf(),
            final(self).k == old(self).k,
            final(self).l == old(self).l,
            final(self).active_idx == old(self).active_idx,
            final(self).expected == old(self).expected,
            final(self).fp_ppm == old(self).fp_ppm,
            final(self).inserted == old(self).inserted + 1,
            final(self).filters.len() == old(self).filters.len(),
            forall|j: int|
                0 <= j < old(self).k ==> (#[trigger] final(self).filters[spec_window_index(
                    old(self).active_idx as int,
                    j,
                    old(self).filters.len() as int,
                )]).spec_contains_item(item@),
            forall|p: int, other: Seq<u8>|
                0 <= p < old(self).filters.len() && #[trigger] old(self).filters[p].spec_contains_item(
                    other,
                ) ==> final(self).filters[p].spec_contains_item(other),
            forall|p: int|
                0 <= p < old(self).filters.len() && spec_window_pos(
                    old(self).active_idx as int,
                    p,
                    old(self).filters.len() as int,
                ) >= old(self).k ==> final(self).filters[p] == old(self).filters[p],
            forall|p: int|
                0 <= p < old(self).filters.len() && spec_window_pos(
                    old(self).active_idx as int,
                    p,
                    old(self).filters.len() as int,
                ) < old(self).k ==> (#[trigger] final(self).filters[p]).stored_items == old(
                    self,
                ).filters[p].stored_items + 1,
    {
        let len = self.filters.len();
        let ghost pre = *self;
        let ghost a = pre.active_idx as int;
        let mut j: usize = 0;
        while j < self.k as usize
            invariant
                pre.wf(),
                j <= pre.k,
                len == pre.filters.len(),
                a == pre.active_idx,
                self.k == pre.k,
                self.l == pre.l,
                self.active_idx == pre.active_idx,
                self.expected == pre.expected,
                self.fp_ppm == pre.fp_ppm,
                self.inserted == pre.inserted,
                self.inserted < u64::MAX,
                item@.len() <= MAX_ITEM_BYTES,
                self.filters.len() == len,
                forall|p: int|
                    0 <= p < len && spec_window_pos(a, p, len as int) < j ==> (
                    #[trigger] self.filters[p]).wf() && self.filters[p].stored_items
                        == pre.filters[p].stored_items + 1
                        && self.filters[p].spec_contains_item(item@),
                forall|p: int|
                    0 <= p < len && spec_window_pos(a, p, len as int) >= j ==> self.filters[p]
                        == pre.filters[p],
                forall|p: int, other: Seq<u8>|
                    0 <= p < len && #[trigger] pre.filters[p].spec_contains_item(other)
                        ==> self.filters[p].spec_contains_item(other),
            decreases self.k as usize - j,
        {
            let idx = if self.active_idx + j < len {
                self.active_idx + j
            } else {
                self.active_idx + j - len
            };
            proof {
                assert(spec_window_pos(a, idx as int, len as int) == j);
                assert(self.filters[idx as int] == pre.filters[idx as int]);
                assert(pre.filters[idx as int].stored_items <= pre.inserted);
            }
            let ghost before = self.filters@;
            let mut f = self.filters.remove(idx);
            f.add(item);
            self.filters.insert(idx, f);
            proof {
                assert(self.filters@ =~= before.update(idx as int, self.filters@[idx as int]));
                assert forall|p: int| 0 <= p < len && p != idx implies self.filters[p]
                    == before[p] by {}
            }
            j = j + 1;
        }
        self.inserted = self.inserted + 1;
        proof {
            assert forall|p: int| 0 <= p < len implies (#[trigger] self.filters[p]).wf()
                && self.filters[p].stored_items <= self.inserted by {
                if spec_window_pos(a, p, len as int) < pre.k {
                } else {
                    assert(self.filters[p] == pre.filters[p]);
                }
            }
            assert forall|j2: int| 0 <= j2 < pre.k implies (#[trigger] self.filters[
            spec_window_index(a, j2, len as int)]).spec_contains_item(item@) by {
                let w = spec_window_index(a, j2, len as int);
                assert(0 <= w < len);
                assert(spec_window_pos(a, w, len as int) == j2);
            }
        }
    }

    /// Windowed membership query: true when some window of `k`
    /// consecutive slices among the `l + 1` candidate windows all report
    /// the item. Items whose slices have aged out are no longer found.
    pub fn get(&self, item: &[u8]) -> (r: bool)
        requires
            self.wf(),
            item@.len() <= MAX_ITEM_BYTES,
        ensures
            r == self.spec_window_hit(item@),
    {
        let mut found = false;
        let mut s: usize = 0;
        while s <= self.l as usize
            invariant
                self.wf(),
                item@.len() <= MAX_ITEM_BYTES,
                s <= self.l as usize + 1,
                found == exists|w: int| 0 <= w < s && #[trigger] self.spec_window_all(w, item@),
            decreases self.l as usize + 1 - s,
        {
            let mut all = true;
            let mut j: usize = 0;
            while j < self.k as usize
                invariant
                    self.wf(),
                    item@.len() <= MAX_ITEM_BYTES,
                    s <= self.l,
                    j <= self.k,
                    all == (forall|m: int|
                        0 <= m < j ==> (#[trigger] self.filters[s + m]).spec_contains_item(item@)),
                decreases self.k as usize - j,
            {
                let ghost pre_all = all;
                if !self.filters[s + j].get(item) {
                    all = false;
                }
                proof {
                    let gj = j as int;
                    if pre_all && self.filters[s as int + gj].spec_contains_item(item@) {
                        assert forall|m: int|
                            0 <= m < gj + 1 implies (
                            #[trigger] self.filters[s + m]).spec_contains_item(item@) by {
                            if m < gj {
                            } else {
                                assert(m == gj);
                            }
                        }
                    }
                }
                j = j + 1;
            }
            if all {
                found = true;
            }
            proof {
                let gs = s as int;
                if all {
                    assert(self.spec_window_all(gs, item@));
                }
                if found {
                    assert(exists|w: int| 0 <= w < gs + 1 && #[trigger] self.spec_window_all(
                        w,
                        item@,
                    ));
                }
            }
            s = s + 1;
        }
        found
    }
}

/// Law (windowed query finds fresh insertions): an item inserted while
/// the active window is anchored at the start of the sequence is found
/// by the windowed query; only aging can remove it later.
pub proof fn lemma_window_query_after_add(f: AgeBloom, item: Seq<u8>)
    requires
        f.wf(),
        f.active_idx == 0,
        forall|j: int|
            0 <= j < f.k ==> (#[trigger] f.filters[spec_window_index(
                0,
                j,
                f.filters.len() as int,
            )]).spec_contains_item(item),
    ensures
        f.spec_window_hit(item),
{
    assert forall|j: int| 0 <= j < f.k implies (#[trigger] f.filters[0 + j]).spec_contains_item(
        item,
    ) by {
        assert(spec_window_index(0, j, f.filters.len() as int) == j);
    }
    assert(f.spec_window_all(0, item));
}

/// One slice of an age filter: a small bit array tagged with the index
/// of the rotating hash function it was built with and its creation
/// time.
#[derive(Debug)]
pub struct Slice {
    pub size: usize,
    pub count: u64,
    pub hash_index: usize,
    pub timestamp: u64,
    pub data: bit_vec::BitVec,
}

impl Slice {
    pub open spec fn wf(self) -> bool {
        &&& 1 <= self.size
        &&& self.size * 8 <= usize::MAX
        &&& bits_of(self.data).len() == self.size * 8
    }

    /// An empty slice of `size` bytes.
    pub fn new(size: usize, hash_index: usize, timestamp: u64) -> (r: Slice)
        requires
            1 <= size,
            size * 8 <= usize::MAX,
        ensures
            r.wf(),
            r.size == size,
            r.count == 0,
            r.hash_index == hash_index,
            r.timestamp == timestamp,
            bits_of(r.data) == Seq::new((size * 8) as nat, |i: int| false),
    {
        Slice { size, count: 0, hash_index, timestamp, data: bv_from_elem(size * 8, false) }
    }
}

/// How many leading slices retirement removes: stale slices (older than
/// the threshold) are dropped from the front, but never more than the
/// `excess` beyond the steady-state slice count.
pub open spec fn spec_retire_count(s: Seq<Slice>, excess: int, threshold: u64) -> int
    decreases s.len(),
{
    if excess <= 0 || s.len() == 0 {
        0
    } else if s[0].timestamp < threshold {
        1 + spec_retire_count(s.skip(1), excess - 1, threshold)
    } else {
        0
    }
}

pub proof fn lemma_retire_count_bounds(s: Seq<Slice>, excess: int, threshold: u64)
    ensures
        0 <= spec_retire_count(s, excess, threshold) <= s.len(),
        excess >= 0 ==> spec_retire_count(s, excess, threshold) <= excess,
    decreases s.len(),
{
    if excess > 0 && s.len() > 0 && s[0].timestamp < threshold {
        lemma_retire_count_bounds(s.skip(1), excess - 1, threshold);
    }
}

/// Law (bounded length): when every slice is stale, retirement removes
/// exactly the excess beyond the steady-state count, so the sequence
/// shrinks back to exactly `optimal` slices — repeatably, on every
/// rotate/retire cycle.
pub proof fn lemma_retire_all_stale(s: Seq<Slice>, excess: int, threshold: u64)
    requires
        0 <= excess <= s.len(),
        forall|i: int| 0 <= i < s.len() ==> (#[trigger] s[i]).timestamp < threshold,
    ensures
        spec_retire_count(s, excess, threshold) == excess,
    decreases s.len(),
{
    if excess > 0 && s.len() > 0 {
        assert(s[0].timestamp < threshold);
        assert(forall|i: int| 0 <= i < s.skip(1).len() ==> (#[trigger] s.skip(1)[i]).timestamp
            < threshold);
        lemma_retire_all_stale(s.skip(1), excess - 1, threshold);
    }
}

/// Law (idempotence): retiring a second time with the same threshold
/// removes nothing, since the first retirement stopped either at the
/// steady-state count or at a fresh slice.
pub proof fn lemma_retire_idempotent(s: Seq<Slice>, optimal: int, threshold: u64)
    requires
        0 <= optimal <= s.len(),
    ensures
        ({
            let c = spec_retire_count(s, s.len() - optimal, threshold);
            spec_retire_count(s.skip(c), s.skip(c).len() - optimal, threshold) == 0
        }),
    decreases s.len(),
{
    let c = spec_retire_count(s, s.len() - optimal, threshold);
    lemma_retire_count_bounds(s, s.len() - optimal, threshold);
    if s.len() - optimal > 0 && s.len() > 0 && s[0].timestamp < threshold {
        let t = s.skip(1);
        assert(c == 1 + spec_retire_count(t, t.len() - optimal, threshold));
        lemma_retire_idempotent(t, optimal, threshold);
        lemma_retire_count_bounds(t, t.len() - optimal, threshold);
        assert(t.skip(c - 1) =~= s.skip(c));
    } else {
        assert(c == 0);
        assert(s.skip(0) =~= s);
    }
}

/// The slice-rotation engine: a bounded sequence of time-stamped slices
/// cycling through `num_hash` rotating hash indices, kept near the
/// steady-state length `optimal_slices = batches + num_hash`.
#[derive(Debug)]
pub struct AgeFilter {
    pub num_hash: usize,
    pub batches: usize,
    pub optimal_slices: u32,
    pub capacity: u64,
    pub inserts: u64,
    pub num_slices: u32,
    pub assess_freq: u32,
    pub slices: BoundedVecDeque<Slice>,
}

impl AgeFilter {
    pub open spec fn wf(self) -> bool {
        &&& 1 <= self.num_hash
        &&& self.num_hash <= 0x3FFF_FFFF
        &&& self.slices.spec_bound() <= u32::MAX
        &&& self.optimal_slices == self.batches + self.num_hash
        &&& self.num_slices == self.slices.spec_items().len()
        &&& self.slices.spec_items().len() >= 1
        &&& self.slices.spec_items().len() <= self.slices.spec_bound()
        &&& self.slices.spec_bound() >= 1
        &&& forall|i: int|
            0 <= i < self.slices.spec_items().len() ==> (#[trigger] self.slices.spec_items()[i]).wf()
        &&& forall|i: int|
            0 <= i < self.slices.spec_items().len() ==> (#[trigger] self.slices.spec_items()[i]).hash_index
                < self.num_hash
    }

    /// A filter with `batches + num_hash` empty slices stamped `now`,
    /// slice `i` assigned rotating hash index `i mod num_hash`.
    pub fn new(num_hash: usize, batches: usize, slice_size: u64, now: u64) -> (r: AgeFilter)
        requires
            1 <= num_hash <= 0x3FFF_FFFF,
            1 <= batches + num_hash <= u32::MAX,
            1 <= slice_size,
            slice_size * 8 <= usize::MAX,
        ensures
            r.wf(),
            r.num_hash == num_hash,
            r.batches == batches,
            r.optimal_slices == batches + num_hash,
            r.num_slices == batches + num_hash,
            r.slices.spec_items().len() == batches + num_hash,
            r.slices.spec_bound() == batches + num_hash,
            r.capacity == 0,
            r.inserts == 0,
            r.assess_freq == 0,
            forall|i: int|
                0 <= i < r.slices.spec_items().len() ==> {
                    let sl = #[trigger] r.slices.spec_items()[i];
                    &&& sl.timestamp == now
                    &&& sl.hash_index == i % (num_hash as int)
                    &&& sl.size == slice_size
                    &&& sl.count == 0
                    &&& bits_of(sl.data) == Seq::new((sl.size * 8) as nat, |b: int| false)
                },
    {
        let optimal = batches + num_hash;
        let mut slices: BoundedVecDeque<Slice> = BoundedVecDeque::new(0);
        let mut i: usize = 0;
        while i < optimal
            invariant
                1 <= num_hash,
                optimal == batches + num_hash,
                optimal <= u32::MAX,
                1 <= slice_size,
                slice_size * 8 <= usize::MAX,
                i <= optimal,
                slices.spec_items().len() == i,
                slices.spec_bound() == i,
                forall|m: int|
                    0 <= m < i ==> {
                        let sl = #[trigger] slices.spec_items()[m];
                        &&& sl.wf()
                        &&& sl.hash_index == m % (num_hash as int)
                        &&& sl.timestamp == now
                        &&& sl.size == slice_size
                        &&& sl.count == 0
                        &&& bits_of(sl.data) == Seq::new((sl.size * 8) as nat, |b: int| false)
                    },
            decreases optimal - i,
        {
            let s = Slice::new(slice_size as usize, i % num_hash, now);
            slices.extend_with(s);
            i = i + 1;
        }
        AgeFilter {
            num_hash,
            batches,
            optimal_slices: optimal as u32,
            capacity: 0,
            inserts: 0,
            num_slices: optimal as u32,
            assess_freq: 0,
            slices,
        }
    }

    /// Rotates forward: appends a fresh slice stamped `now` whose hash
    /// index is the predecessor (mod `num_hash`) of the newest slice's,
    /// evicting the oldest slice when the bounded sequence is full.
    pub fn shift(&mut self, now: u64)
        requires
            old(self).wf(),
        ensures
            final(self).wf(),
            final(self).num_hash == old(self).num_hash,
            final(self).batches == old(self).batches,
            final(self).optimal_slices == old(self).optimal_slices,
            final(self).slices.spec_bound() == old(self).slices.spec_bound(),
            ({
                let pre = old(self).slices.spec_items();
                let post = final(self).slices.spec_items();
                let fresh = post[post.len() - 1];
                &&& fresh.timestamp == now
                &&& fresh.count == 0
                &&& fresh.size == pre[pre.len() - 1].size
                &&& bits_of(fresh.data) == Seq::new((fresh.size * 8) as nat, |b: int| false)
                &&& fresh.hash_index == (pre[pre.len() - 1].hash_index + old(self).num_hash - 1)
                    % (old(self).num_hash as int)
                &&& pre.len() != old(self).slices.spec_bound() ==> post == pre.push(fresh)
                &&& pre.len() == old(self).slices.spec_bound() ==> post == pre.subrange(
                    1,
                    pre.len() as int,
                ).push(fresh)
            }),
            final(self).num_slices == final(self).slices.spec_items().len(),
    {
        let len = self.slices.len();
        let last = self.slices.get(len - 1).unwrap();
        let hash_index = (last.hash_index + self.num_hash - 1) % self.num_hash;
        let size = last.size;
        let fresh = Slice::new(size, hash_index, now);
        self.slices.push_back(fresh);
        let n = self.slices.len();
        self.num_slices = n as u32;
        proof {
            assert(self.slices.spec_items().len() <= old(self).slices.spec_items().len() + 1);
            assert(old(self).slices.spec_items().len() <= u32::MAX);
        }
    }

    /// Appends one fresh slice beyond the bound, growing the bound: the
    /// sequence length temporarily exceeds the steady-state count until
    /// retirement brings it back.
    pub fn add_slice(&mut self, size: usize, now: u64)
        requires
            old(self).wf(),
            1 <= size,
            size * 8 <= usize::MAX,
            old(self).num_slices < u32::MAX,
            old(self).slices.spec_bound() < u32::MAX,
        ensures
            final(self).wf(),
            final(self).num_hash == old(self).num_hash,
            final(self).batches == old(self).batches,
            final(self).optimal_slices == old(self).optimal_slices,
            final(self).num_slices == old(self).num_slices + 1,
            final(self).slices.spec_bound() == old(self).slices.spec_bound() + 1,
            ({
                let pre = old(self).slices.spec_items();
                let post = final(self).slices.spec_items();
                let fresh = post[post.len() - 1];
                &&& post == pre.push(fresh)
                &&& fresh.timestamp == now
                &&& fresh.count == 0
                &&& fresh.size == size
                &&& bits_of(fresh.data) == Seq::new((fresh.size * 8) as nat, |b: int| false)
                &&& fresh.hash_index == (pre[pre.len() - 1].hash_index + old(self).num_hash - 1)
                    % (old(self).num_hash as int)
            }),
    {
        let len = self.slices.len();
        let last = self.slices.get(len - 1).unwrap();
        let hash_index = (last.hash_index + self.num_hash - 1) % self.num_hash;
        let fresh = Slice::new(size, hash_index, now);
        self.slices.extend_with(fresh);
        self.num_slices = self.num_slices + 1;
    }

    /// Retires stale slices: removes slices older than `threshold` from
    /// the front, but keeps at least `optimal_slices` slices, and resyncs
    /// the slice count. Retiring with nothing eligible changes nothing,
    /// so retirement is idempotent.
    pub fn retire_slices(&mut self, threshold: u64)
        requires
            old(self).wf(),
        ensures
            final(self).wf(),
            final(self).num_hash == old(self).num_hash,
            final(self).batches == old(self).batches,
            final(self).optimal_slices == old(self).optimal_slices,
            final(self).slices.spec_bound() == old(self).slices.spec_bound(),
            final(self).slices.spec_items() == old(self).slices.spec_items().skip(
                spec_retire_count(
                    old(self).slices.spec_items(),
                    old(self).slices.spec_items().len() - old(self).optimal_slices,
                    threshold,
                ),
            ),
            final(self).num_slices == final(self).slices.spec_items().len(),
            old(self).slices.spec_items().len() >= old(self).optimal_slices ==> final(self)
                .slices.spec_items().len() >= old(self).optimal_slices,
            (old(self).slices.spec_items().len() >= old(self).optimal_slices && (forall|i: int|
                0 <= i < old(self).slices.spec_items().len() ==> (#[trigger] old(self)
                    .slices.spec_items()[i]).timestamp < threshold)) ==> final(self)
                .slices.spec_items().len() == old(self).optimal_slices,
    {
        let ghost orig = self.slices.spec_items();
        let ghost total = spec_retire_count(
            orig,
            orig.len() - old(self).optimal_slices,
            threshold,
        );
        let optimal = self.optimal_slices as usize;
        proof {
            lemma_retire_count_bounds(orig, orig.len() - old(self).optimal_slices, threshold);
        }
        let ghost removed: int = 0;
        let mut more = true;
        while more
            invariant
                old(self).wf(),
                self.num_hash == old(self).num_hash,
                self.batches == old(self).batches,
                self.optimal_slices == old(self).optimal_slices,
                self.num_slices == old(self).num_slices,
                self.capacity == old(self).capacity,
                self.inserts == old(self).inserts,
                self.assess_freq == old(self).assess_freq,
                self.slices.spec_bound() == old(self).slices.spec_bound(),
                optimal == self.optimal_slices,
                0 <= removed <= orig.len(),
                self.slices.spec_items() == orig.skip(removed),
                total == removed + spec_retire_count(
                    self.slices.spec_items(),
                    self.slices.spec_items().len() - optimal,
                    threshold,
                ),
                !more ==> spec_retire_count(
                    self.slices.spec_items(),
                    self.slices.spec_items().len() - optimal,
                    threshold,
                ) == 0,
            decreases orig.len() - removed + (if more {
                1int
            } else {
                0int
            }),
        {
            let len = self.slices.len();
            if len <= optimal {
                more = false;
            } else {
                let front = self.slices.get(0).unwrap();
                if front.timestamp < threshold {
                    let ghost before = self.slices.spec_items();
                    self.slices.pop_front();
                    proof {
                        removed = removed + 1;
                        assert(before.subrange(1, before.len() as int) =~= before.skip(1));
                        assert(orig.skip(removed - 1).skip(1) =~= orig.skip(removed));
                    }
                } else {
                    more = false;
                }
            }
        }
        let n = self.slices.len();
        self.num_slices = n as u32;
        proof {
            assert(self.slices.spec_items() =~= orig.skip(total));
            if orig.len() >= optimal {
                lemma_retire_count_bounds(orig, orig.len() - optimal, threshold);
                if forall|i: int| 0 <= i < orig.len() ==> (#[trigger] orig[i]).timestamp
                    < threshold {
                    lemma_retire_all_stale(orig, orig.len() - optimal, threshold);
                }
            }
        }
    }
}

} // verus!
