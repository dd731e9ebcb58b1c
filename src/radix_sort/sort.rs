use crate::count_buffer::CountBuffer;
use crate::generate_dispatch::{div_ceil, DispatchWorkgroups};
use crate::radix_sort::bucket_histogram::{BucketHistogram, BUCKET_HISTOGRAM_SEGMENT_SIZE};
use crate::radix_sort::bucket_scatter::{slot, BucketScatter, BUCKET_SCATTER_SEGMENT_SIZE, VALUE_MASK};
use crate::radix_sort::digits::{
    destinations, digit_count, digit_offset, lemma_digit_offset_mono, lemma_digit_offset_all,
    lemma_digit_offset_permuted, lemma_low_key_half, lemma_no_digits, lemma_pass_extends, lemma_scatter_sorts,
    low_key, sorted_by_low_digits,
};
use crate::radix_sort::generate_dispatches::{GenerateDispatches, SegmentSizes};
use crate::radix_sort::global_bucket_offsets::GlobalBucketOffsets;
use crate::permutation::{inverse, is_permutation, lemma_permutation_onto, reaches};
use crate::radix_sort::canonical::{lemma_i32_order, lemma_i32_round_trip, spec_canonicalize_i32, spec_decanonicalize_i32};
use crate::sum::{lemma_wrap_small, sum};
use vstd::prelude::*;

verus! {

/// `keys_out` lists `keys_in` ordered by the value of their lowest `q` digits, keys
/// with equal values in their input order.
pub open spec fn sorted_on_low_digits(keys_in: Seq<u32>, keys_out: Seq<u32>, q: int) -> bool {
    exists|perm: Seq<int>| sorted_by_low_digits(keys_in, keys_out, perm, q)
}

/// `keys_out` is the stable ascending sort of `keys_in`.
pub open spec fn is_stable_sort(keys_in: Seq<u32>, keys_out: Seq<u32>) -> bool {
    sorted_on_low_digits(keys_in, keys_out, 4)
}

/// The number of leading elements a primitive works on: the caller's count where
/// there is one, else the whole buffer.
pub open spec fn live_count(count: Option<u32>, len: int) -> int {
    match count {
        Some(c) => c as int,
        None => len,
    }
}

/// Keys below 2^16 are sorted by their lowest two digits exactly when sorted.
pub proof fn lemma_half_precision_suffices(keys_in: Seq<u32>, keys_out: Seq<u32>, perm: Seq<int>)
    requires
        sorted_by_low_digits(keys_in, keys_out, perm, 2),
        forall|k: int| 0 <= k < keys_in.len() ==> #[trigger] keys_in[k] < 0x1_0000,
    ensures
        sorted_by_low_digits(keys_in, keys_out, perm, 4),
{
    assert forall|k: int| 0 <= k < keys_in.len() implies low_key(#[trigger] keys_in[k], 2) == low_key(keys_in[k], 4) by {
        lemma_low_key_half(keys_in[k]);
    }
    let n = keys_in.len() as int;
    assert forall|k1: int, k2: int| 0 <= k1 < k2 < n implies low_key(keys_in[#[trigger] perm[k1]], 4) < low_key(keys_in[#[trigger] perm[k2]], 4)
        || (low_key(keys_in[perm[k1]], 4) == low_key(keys_in[perm[k2]], 4) && perm[k1] < perm[k2]) by {
        assert(0 <= perm[k1] < n && 0 <= perm[k2] < n);
    }
}

/// Two reorderings that both sort by the lowest `q` digits with ties in input order
/// are the same reordering.
pub proof fn lemma_sorted_perm_unique(keys_in: Seq<u32>, out1: Seq<u32>, out2: Seq<u32>, perm1: Seq<int>, perm2: Seq<int>, q: int)
    requires
        sorted_by_low_digits(keys_in, out1, perm1, q),
        sorted_by_low_digits(keys_in, out2, perm2, q),
    ensures
        perm1 == perm2,
        out1 == out2,
{
    let n = keys_in.len() as int;
    lemma_sorted_perm_prefix(keys_in, out1, out2, perm1, perm2, q, n);
    assert(perm1 =~= perm2);
    assert forall|k: int| 0 <= k < n implies #[trigger] out1[k] == out2[k] by {
        assert(out1[k] == keys_in[perm1[k]]);
        assert(out2[k] == keys_in[perm2[k]]);
    }
    assert(out1 =~= out2);
}

proof fn lemma_sorted_perm_prefix(keys_in: Seq<u32>, out1: Seq<u32>, out2: Seq<u32>, perm1: Seq<int>, perm2: Seq<int>, q: int, m: int)
    requires
        sorted_by_low_digits(keys_in, out1, perm1, q),
        sorted_by_low_digits(keys_in, out2, perm2, q),
        0 <= m <= keys_in.len(),
    ensures
        forall|k: int| 0 <= k < m ==> #[trigger] perm1[k] == perm2[k],
    decreases m,
{
    let n = keys_in.len() as int;
    if m > 0 {
        lemma_sorted_perm_prefix(keys_in, out1, out2, perm1, perm2, q, m - 1);
        let k = m - 1;
        let a = perm1[k];
        let b = perm2[k];
        if a != b {
            lemma_permutation_onto(perm1, n);
            lemma_permutation_onto(perm2, n);
            assert(0 <= a < n && 0 <= b < n);
            assert(reaches(perm2, n, a));
            let k2 = choose|j: int| 0 <= j < n && #[trigger] perm2[j] == a;
            assert(reaches(perm1, n, b));
            let k1 = choose|j: int| 0 <= j < n && #[trigger] perm1[j] == b;
            if k2 < k {
                assert(perm1[k2] == perm2[k2]);
            }
            if k1 < k {
                assert(perm1[k1] == perm2[k1]);
            }
            assert(k < k1 && k < k2);
        }
    }
}

/// A stable sort is unique: any two stable sorts of the same keys are equal, so the
/// radix sort gives what any stable reference sort gives.
pub proof fn lemma_stable_sort_unique(keys_in: Seq<u32>, out1: Seq<u32>, out2: Seq<u32>)
    requires
        is_stable_sort(keys_in, out1),
        is_stable_sort(keys_in, out2),
    ensures
        out1 == out2,
{
    let perm1 = choose|perm: Seq<int>| sorted_by_low_digits(keys_in, out1, perm, 4);
    let perm2 = choose|perm: Seq<int>| sorted_by_low_digits(keys_in, out2, perm, 4);
    lemma_sorted_perm_unique(keys_in, out1, out2, perm1, perm2, 4);
}

/// Sorting the first `n` keys of a buffer through a count gives the same keys as
/// sorting a buffer of just those `n` keys without one.
pub proof fn lemma_sort_count_equivalence(data: Seq<u32>, n: u32, with_count: Seq<u32>, truncated: Seq<u32>)
    requires
        n <= data.len(),
        is_stable_sort(data.take(live_count(Some(n), data.len() as int)), with_count.take(live_count(Some(n), data.len() as int))),
        truncated.len() == n,
        is_stable_sort(data.take(n as int).take(live_count(None, n as int)), truncated.take(live_count(None, n as int))),
    ensures
        with_count.take(n as int) == truncated,
{
    assert(data.take(n as int).take(n as int) =~= data.take(n as int));
    assert(truncated.take(n as int) =~= truncated);
    lemma_stable_sort_unique(data.take(n as int), with_count.take(n as int), truncated);
}

/// Sorting the unsigned keys of signed keys and turning the result back gives the
/// signed keys in ascending order, each taken from the input once, and ties in
/// input order.
pub proof fn lemma_sort_canonical_i32(keys: Seq<i32>, out: Seq<u32>)
    requires
        is_stable_sort(keys.map_values(|x: i32| spec_canonicalize_i32(x)), out),
    ensures
        exists|perm: Seq<int>| is_permutation(perm, keys.len() as int)
            && (forall|k: int| 0 <= k < keys.len() ==> #[trigger] spec_decanonicalize_i32(out[k]) == keys[perm[k]])
            && (forall|k1: int, k2: int| 0 <= k1 < k2 < keys.len() ==> keys[#[trigger] perm[k1]] < keys[#[trigger] perm[k2]]
                || (keys[perm[k1]] == keys[perm[k2]] && perm[k1] < perm[k2])),
{
    let c = keys.map_values(|x: i32| spec_canonicalize_i32(x));
    let perm = choose|perm: Seq<int>| sorted_by_low_digits(c, out, perm, 4);
    let n = keys.len() as int;
    assert forall|k: int| 0 <= k < n implies #[trigger] spec_decanonicalize_i32(out[k]) == keys[perm[k]] by {
        assert(out[k] == c[perm[k]]);
        lemma_i32_round_trip(keys[perm[k]], 0);
    }
    assert forall|k1: int, k2: int| 0 <= k1 < k2 < n implies keys[#[trigger] perm[k1]] < keys[#[trigger] perm[k2]]
        || (keys[perm[k1]] == keys[perm[k2]] && perm[k1] < perm[k2]) by {
        let a = keys[perm[k1]];
        let b = keys[perm[k2]];
        assert(c[perm[k1]] == spec_canonicalize_i32(a));
        assert(c[perm[k2]] == spec_canonicalize_i32(b));
        lemma_i32_order(a, b);
        lemma_i32_order(b, a);
    }
}

/// A histogram row summed up to a digit is that digit's offset.
pub proof fn lemma_row_offsets(hist: Seq<u32>, keys: Seq<u32>, q: int, n: int, d: int)
    requires
        0 <= q < 4,
        0 <= d <= 256,
        0 <= n <= keys.len(),
        hist.len() == 1024,
        forall|e: int| 0 <= e < 256 ==> #[trigger] hist[slot(q, e)] == digit_count(keys, q, e, n),
    ensures
        sum(hist.subrange(slot(q, 0), slot(q, d))) == digit_offset(keys, q, d, n),
    decreases d,
{
    if d == 0 {
        assert(hist.subrange(slot(q, 0), slot(q, 0)) =~= Seq::<u32>::empty());
    } else {
        lemma_row_offsets(hist, keys, q, n, d - 1);
        let a = hist.subrange(slot(q, 0), slot(q, d - 1));
        let b = hist.subrange(slot(q, 0), slot(q, d));
        assert(b.drop_last() =~= a);
    }
}

/// The keys and scratch space of a sort.
pub struct RadixSortInput {
    pub data: Vec<u32>,
    pub temporary_storage: Vec<u32>,
    pub count: Option<u32>,
}

/// Least-significant-digit radix sort of 32-bit keys: a histogram of all four
/// digits, the digit offsets, then one stable scatter pass per digit, back and forth
/// between the data and the scratch space.
pub struct RadixSort {
    generate_dispatches: GenerateDispatches,
    bucket_histogram: BucketHistogram,
    global_bucket_offsets: GlobalBucketOffsets,
    bucket_scatter: BucketScatter,
    global_bucket_data: Vec<u32>,
    segment_sizes: SegmentSizes,
    histogram_dispatch: DispatchWorkgroups,
    scatter_dispatch: DispatchWorkgroups,
}

impl RadixSort {
    pub closed spec fn wf(&self) -> bool {
        &&& self.segment_sizes.histogram == 1024
        &&& self.segment_sizes.scatter == 1024
    }

    pub fn init_u32() -> (r: Self)
        ensures
            r.wf(),
    {
        RadixSort {
            generate_dispatches: GenerateDispatches::init(),
            bucket_histogram: BucketHistogram::init_u32(),
            global_bucket_offsets: GlobalBucketOffsets::init(),
            bucket_scatter: BucketScatter::init_u32(),
            global_bucket_data: vec![0u32; 1024],
            segment_sizes: SegmentSizes { histogram: BUCKET_HISTOGRAM_SEGMENT_SIZE, scatter: BUCKET_SCATTER_SEGMENT_SIZE },
            histogram_dispatch: DispatchWorkgroups { count_x: 1, count_y: 1, count_z: 1 },
            scatter_dispatch: DispatchWorkgroups { count_x: 1, count_y: 1, count_z: 1 },
        }
    }

    /// Sorts the first `count` keys (all keys when there is no count) stably in
    /// ascending order. Keys from `count` on are left as they were; the scratch space
    /// is overwritten.
    pub fn encode(&mut self, input: &mut RadixSortInput)
        requires
            old(self).wf(),
            old(input).data.len() == old(input).temporary_storage.len(),
            old(input).data.len() <= VALUE_MASK,
            old(input).count matches Some(c) ==> c <= old(input).data.len(),
        ensures
            final(self).wf(),
            final(input).count == old(input).count,
            final(input).data.len() == old(input).data.len(),
            final(input).temporary_storage.len() == old(input).temporary_storage.len(),
            is_stable_sort(
                old(input).data@.take(live_count(old(input).count, old(input).data.len() as int)),
                final(input).data@.take(live_count(old(input).count, old(input).data.len() as int)),
            ),
            forall|k: int| live_count(old(input).count, old(input).data.len() as int) <= k < old(input).data.len()
                ==> #[trigger] final(input).data[k] == old(input).data[k],
    {
        self.encode_internal(input, 4);
    }

    /// Sorts as `encode` does by the lowest 16 bits of each key alone, in two passes:
    /// a full sort where every key is below 2^16.
    pub fn encode_half_precision(&mut self, input: &mut RadixSortInput)
        requires
            old(self).wf(),
            old(input).data.len() == old(input).temporary_storage.len(),
            old(input).data.len() <= VALUE_MASK,
            old(input).count matches Some(c) ==> c <= old(input).data.len(),
        ensures
            final(self).wf(),
            final(input).count == old(input).count,
            final(input).data.len() == old(input).data.len(),
            final(input).temporary_storage.len() == old(input).temporary_storage.len(),
            sorted_on_low_digits(
                old(input).data@.take(live_count(old(input).count, old(input).data.len() as int)),
                final(input).data@.take(live_count(old(input).count, old(input).data.len() as int)),
                2,
            ),
            (forall|k: int| 0 <= k < live_count(old(input).count, old(input).data.len() as int) ==> #[trigger] old(input).data[k] < 0x1_0000)
                ==> is_stable_sort(
                old(input).data@.take(live_count(old(input).count, old(input).data.len() as int)),
                final(input).data@.take(live_count(old(input).count, old(input).data.len() as int)),
            ),
            forall|k: int| live_count(old(input).count, old(input).data.len() as int) <= k < old(input).data.len()
                ==> #[trigger] final(input).data[k] == old(input).data[k],
    {
        self.encode_internal(input, 2);
        let ghost n = live_count(old(input).count, old(input).data.len() as int);
        proof {
            let a = old(input).data@.take(n);
            let b = input.data@.take(n);
            if forall|k: int| 0 <= k < n ==> #[trigger] old(input).data[k] < 0x1_0000 {
                let perm = choose|perm: Seq<int>| sorted_by_low_digits(a, b, perm, 2);
                assert forall|k: int| 0 <= k < a.len() implies #[trigger] a[k] < 0x1_0000 by {
                    assert(a[k] == old(input).data[k]);
                }
                lemma_half_precision_suffices(a, b, perm);
            }
        }
    }

    fn encode_internal(&mut self, input: &mut RadixSortInput, radix_groups: usize)
        requires
            old(self).wf(),
            radix_groups == 2 || radix_groups == 4,
            old(input).data.len() == old(input).temporary_storage.len(),
            old(input).data.len() <= VALUE_MASK,
            old(input).count matches Some(c) ==> c <= old(input).data.len(),
        ensures
            final(self).wf(),
            final(input).count == old(input).count,
            final(input).data.len() == old(input).data.len(),
            final(input).temporary_storage.len() == old(input).temporary_storage.len(),
            sorted_on_low_digits(
                old(input).data@.take(live_count(old(input).count, old(input).data.len() as int)),
                final(input).data@.take(live_count(old(input).count, old(input).data.len() as int)),
                radix_groups as int,
            ),
            forall|k: int| live_count(old(input).count, old(input).data.len() as int) <= k < old(input).data.len()
                ==> #[trigger] final(input).data[k] == old(input).data[k],
    {
        let ghost keys = input.data@;
        let fallback_count = input.data.len() as u32;
        let dispatch_indirect = input.count.is_some();
        let count = CountBuffer::new(input.count, fallback_count);
        let n = count.uniform();
        let ghost nn = n as int;
        assert(nn == live_count(old(input).count, old(input).data.len() as int));
        if dispatch_indirect {
            self.generate_dispatches.encode(&self.segment_sizes, n, &mut self.histogram_dispatch, &mut self.scatter_dispatch);
        }
        self.global_bucket_data = vec![0u32; 1024];
        self.bucket_histogram.encode(n, &input.data, &mut self.global_bucket_data, dispatch_indirect, &self.histogram_dispatch, fallback_count);
        let ghost hist = self.global_bucket_data@;
        self.global_bucket_offsets.encode(&mut self.global_bucket_data);
        proof {
            assert forall|q: int, d: int| 0 <= q < 4 && 0 <= d < 256 implies #[trigger] self.global_bucket_data[slot(q, d)]
                == digit_offset(keys, q, d, nn) by {
                assert forall|e: int| 0 <= e < 256 implies #[trigger] hist[slot(q, e)] == digit_count(keys, q, e, nn) by {
                }
                lemma_row_offsets(hist, keys, q, nn, d);
                lemma_digit_offset_mono(keys, q, d, 256, nn);
                lemma_digit_offset_all(keys, q, nn);
                lemma_wrap_small(digit_offset(keys, q, d, nn) as int);
            }
        }
        let ghost mut perm: Seq<int> = Seq::new(nn as nat, |k: int| k);
        proof {
            lemma_no_digits(keys.take(nn));
        }
        let mut i: usize = 0;
        while i < radix_groups
            invariant
                i <= radix_groups,
                radix_groups == 2 || radix_groups == 4,
                self.wf(),
                self.global_bucket_data.len() == 1024,
                forall|q: int, d: int| 0 <= q < 4 && 0 <= d < 256 ==> #[trigger] self.global_bucket_data[slot(q, d)]
                    == digit_offset(keys, q, d, nn),
                keys == old(input).data@,
                nn == n,
                nn == live_count(old(input).count, old(input).data.len() as int),
                n <= fallback_count <= VALUE_MASK,
                fallback_count == keys.len(),
                dispatch_indirect ==> self.scatter_dispatch.count_x == div_ceil(nn, 1024),
                input.count == old(input).count,
                input.data.len() == fallback_count,
                input.temporary_storage.len() == fallback_count,
                i % 2 == 0 ==> sorted_by_low_digits(keys.take(nn), input.data@.take(nn), perm, i as int),
                i % 2 == 1 ==> sorted_by_low_digits(keys.take(nn), input.temporary_storage@.take(nn), perm, i as int),
                forall|k: int| nn <= k < fallback_count ==> #[trigger] input.data[k] == keys[k],
            decreases radix_groups - i,
        {
            let ghost cur = if i % 2 == 0 { input.data@ } else { input.temporary_storage@ };
            proof {
                assert forall|d: int| 0 <= d < 256 implies #[trigger] self.global_bucket_data[i * 256 + d]
                    == digit_offset(cur, i as int, d, nn) by {
                    assert(i * 256 + d == slot(i as int, d));
                    assert forall|k: int| 0 <= k < nn implies #[trigger] cur[k] == keys[perm[k]] by {
                        assert(cur.take(nn)[k] == keys.take(nn)[perm[k]]);
                    }
                    lemma_digit_offset_permuted(keys, cur, perm, i as int, d, nn);
                }
            }
            if i % 2 == 0 {
                self.bucket_scatter.encode(&input.data, &mut input.temporary_storage, &self.global_bucket_data, i as u32, n, dispatch_indirect, &self.scatter_dispatch, fallback_count);
                proof {
                    lemma_scatter_sorts(cur, input.temporary_storage@, i as int, nn);
                }
            } else {
                self.bucket_scatter.encode(&input.temporary_storage, &mut input.data, &self.global_bucket_data, i as u32, n, dispatch_indirect, &self.scatter_dispatch, fallback_count);
                proof {
                    lemma_scatter_sorts(cur, input.data@, i as int, nn);
                }
            }
            let ghost out = if i % 2 == 0 { input.temporary_storage@ } else { input.data@ };
            proof {
                let step = inverse(destinations(cur, i as int, nn), nn);
                lemma_pass_extends(keys.take(nn), cur.take(nn), out.take(nn), perm, step, i as int);
                perm = Seq::new(nn as nat, |k: int| perm[step[k]]);
            }
            i = i + 1;
        }
    }
}

} // verus!
