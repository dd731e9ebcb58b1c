use crate::count_buffer::CountBuffer;
use crate::generate_dispatch::{div_ceil, DispatchWorkgroups};
use crate::permutation::inverse;
use crate::radix_sort::bucket_histogram::{BucketHistogram, BUCKET_HISTOGRAM_SEGMENT_SIZE};
use crate::radix_sort::bucket_scatter::{slot, VALUE_MASK};
use crate::radix_sort::bucket_scatter_by::{BucketScatterBy, BUCKET_SCATTER_BY_SEGMENT_SIZE};
use crate::radix_sort::digits::{
    destinations, digit_count, digit_offset, follows, lemma_digit_offset_all, lemma_digit_offset_mono,
    lemma_digit_offset_permuted, lemma_follows_compose, lemma_no_digits, lemma_pass_extends, lemma_scatter_carries,
    lemma_scatter_sorts, sorted_by_low_digits,
};
use crate::radix_sort::generate_dispatches::{GenerateDispatches, SegmentSizes};
use crate::radix_sort::global_bucket_offsets::GlobalBucketOffsets;
use crate::radix_sort::sort::{lemma_half_precision_suffices, lemma_row_offsets, lemma_sorted_perm_unique, live_count};
use crate::sum::lemma_wrap_small;
use vstd::prelude::*;

verus! {

/// `keys_out` lists `keys_in` ordered by the value of their lowest `q` digits, keys
/// with equal values in their input order, and each value stays with its key.
pub open spec fn sorted_by_on_low_digits<V>(keys_in: Seq<u32>, values_in: Seq<V>, keys_out: Seq<u32>, values_out: Seq<V>, q: int) -> bool {
    exists|perm: Seq<int>| sorted_by_low_digits(keys_in, keys_out, perm, q) && follows(values_in, values_out, perm)
}

/// `keys_out` is the stable ascending sort of `keys_in`, and `values_out` holds each
/// value of `values_in` at the new place of the key at its index.
pub open spec fn is_stable_sort_by<V>(keys_in: Seq<u32>, values_in: Seq<V>, keys_out: Seq<u32>, values_out: Seq<V>) -> bool {
    sorted_by_on_low_digits(keys_in, values_in, keys_out, values_out, 4)
}

/// Equal keys keep their input order, and their values with them: of two output
/// positions with equal keys, the earlier holds the key and value that came from the
/// earlier input index.
pub proof fn lemma_equal_keys_keep_order<V>(
    keys_in: Seq<u32>,
    values_in: Seq<V>,
    keys_out: Seq<u32>,
    values_out: Seq<V>,
    perm: Seq<int>,
    k1: int,
    k2: int,
)
    requires
        sorted_by_low_digits(keys_in, keys_out, perm, 4),
        follows(values_in, values_out, perm),
        values_in.len() == keys_in.len(),
        0 <= k1 < k2 < keys_out.len(),
        keys_out[k1] == keys_out[k2],
    ensures
        perm[k1] < perm[k2],
        keys_out[k1] == keys_in[perm[k1]] && values_out[k1] == values_in[perm[k1]],
        keys_out[k2] == keys_in[perm[k2]] && values_out[k2] == values_in[perm[k2]],
{
    assert(keys_out[k1] == keys_in[perm[k1]]);
    assert(keys_out[k2] == keys_in[perm[k2]]);
}

/// A stable sort that carries values is unique: any two give the same keys and the
/// same values.
pub proof fn lemma_stable_sort_by_unique<V>(
    keys_in: Seq<u32>,
    values_in: Seq<V>,
    keys_out1: Seq<u32>,
    values_out1: Seq<V>,
    keys_out2: Seq<u32>,
    values_out2: Seq<V>,
)
    requires
        is_stable_sort_by(keys_in, values_in, keys_out1, values_out1),
        is_stable_sort_by(keys_in, values_in, keys_out2, values_out2),
    ensures
        keys_out1 == keys_out2,
        values_out1 == values_out2,
{
    let perm1 = choose|perm: Seq<int>| sorted_by_low_digits(keys_in, keys_out1, perm, 4) && follows(values_in, values_out1, perm);
    let perm2 = choose|perm: Seq<int>| sorted_by_low_digits(keys_in, keys_out2, perm, 4) && follows(values_in, values_out2, perm);
    lemma_sorted_perm_unique(keys_in, keys_out1, keys_out2, perm1, perm2, 4);
    assert forall|k: int| 0 <= k < values_out1.len() implies #[trigger] values_out1[k] == values_out2[k] by {
        assert(values_out1[k] == values_in[perm1[k]]);
        assert(values_out2[k] == values_in[perm2[k]]);
    }
    assert(values_out1 =~= values_out2);
}

/// The keys, their values and scratch space for both.
pub struct RadixSortByInput<V> {
    pub keys: Vec<u32>,
    pub values: Vec<V>,
    pub temporary_key_storage: Vec<u32>,
    pub temporary_value_storage: Vec<V>,
    pub count: Option<u32>,
}

/// Least-significant-digit radix sort of 32-bit keys that carries a value with each
/// key, in the same passes as `RadixSort`.
pub struct RadixSortBy {
    generate_dispatches: GenerateDispatches,
    bucket_histogram: BucketHistogram,
    global_bucket_offsets: GlobalBucketOffsets,
    bucket_scatter_by: BucketScatterBy,
    global_bucket_data: Vec<u32>,
    segment_sizes: SegmentSizes,
    histogram_dispatch: DispatchWorkgroups,
    scatter_dispatch: DispatchWorkgroups,
}

impl RadixSortBy {
    pub closed spec fn wf(&self) -> bool {
        &&& self.segment_sizes.histogram == 1024
        &&& self.segment_sizes.scatter == 1024
    }

    pub fn init_u32() -> (r: Self)
        ensures
            r.wf(),
    {
        RadixSortBy {
            generate_dispatches: GenerateDispatches::init(),
            bucket_histogram: BucketHistogram::init_u32(),
            global_bucket_offsets: GlobalBucketOffsets::init(),
            bucket_scatter_by: BucketScatterBy::init_u32(),
            global_bucket_data: vec![0u32; 1024],
            segment_sizes: SegmentSizes { histogram: BUCKET_HISTOGRAM_SEGMENT_SIZE, scatter: BUCKET_SCATTER_BY_SEGMENT_SIZE },
            histogram_dispatch: DispatchWorkgroups { count_x: 1, count_y: 1, count_z: 1 },
            scatter_dispatch: DispatchWorkgroups { count_x: 1, count_y: 1, count_z: 1 },
        }
    }

    /// Sorts the first `count` keys (all keys when there is no count) stably in
    /// ascending order, and moves each of the first `count` values with the key at its
    /// index. Keys from `count` on are left as they were; the scratch space is
    /// overwritten.
    pub fn encode<V: Copy>(&mut self, input: &mut RadixSortByInput<V>)
        requires
            old(self).wf(),
            old(input).keys.len() == old(input).temporary_key_storage.len(),
            old(input).keys.len() == old(input).values.len(),
            old(input).keys.len() == old(input).temporary_value_storage.len(),
            old(input).keys.len() <= VALUE_MASK,
            old(input).count matches Some(c) ==> c <= old(input).keys.len(),
        ensures
            final(self).wf(),
            final(input).count == old(input).count,
            final(input).keys.len() == old(input).keys.len(),
            final(input).values.len() == old(input).values.len(),
            final(input).temporary_key_storage.len() == old(input).temporary_key_storage.len(),
            final(input).temporary_value_storage.len() == old(input).temporary_value_storage.len(),
            is_stable_sort_by(
                old(input).keys@.take(live_count(old(input).count, old(input).keys.len() as int)),
                old(input).values@.take(live_count(old(input).count, old(input).keys.len() as int)),
                final(input).keys@.take(live_count(old(input).count, old(input).keys.len() as int)),
                final(input).values@.take(live_count(old(input).count, old(input).keys.len() as int)),
            ),
            forall|k: int| live_count(old(input).count, old(input).keys.len() as int) <= k < old(input).keys.len()
                ==> #[trigger] final(input).keys[k] == old(input).keys[k],
            forall|k: int| live_count(old(input).count, old(input).keys.len() as int) <= k < old(input).keys.len()
                ==> #[trigger] final(input).values[k] == old(input).values[k],
    {
        self.encode_internal(input, 4);
    }

    /// Sorts as `encode` does by the lowest 16 bits of each key alone, in two passes:
    /// a full sort where every key is below 2^16.
    pub fn encode_half_precision<V: Copy>(&mut self, input: &mut RadixSortByInput<V>)
        requires
            old(self).wf(),
            old(input).keys.len() == old(input).temporary_key_storage.len(),
            old(input).keys.len() == old(input).values.len(),
            old(input).keys.len() == old(input).temporary_value_storage.len(),
            old(input).keys.len() <= VALUE_MASK,
            old(input).count matches Some(c) ==> c <= old(input).keys.len(),
        ensures
            final(self).wf(),
            final(input).count == old(input).count,
            final(input).keys.len() == old(input).keys.len(),
            final(input).values.len() == old(input).values.len(),
            final(input).temporary_key_storage.len() == old(input).temporary_key_storage.len(),
            final(input).temporary_value_storage.len() == old(input).temporary_value_storage.len(),
            sorted_by_on_low_digits(
                old(input).keys@.take(live_count(old(input).count, old(input).keys.len() as int)),
                old(input).values@.take(live_count(old(input).count, old(input).keys.len() as int)),
                final(input).keys@.take(live_count(old(input).count, old(input).keys.len() as int)),
                final(input).values@.take(live_count(old(input).count, old(input).keys.len() as int)),
                2,
            ),
            (forall|k: int| 0 <= k < live_count(old(input).count, old(input).keys.len() as int) ==> #[trigger] old(input).keys[k] < 0x1_0000)
                ==> is_stable_sort_by(
                old(input).keys@.take(live_count(old(input).count, old(input).keys.len() as int)),
                old(input).values@.take(live_count(old(input).count, old(input).keys.len() as int)),
                final(input).keys@.take(live_count(old(input).count, old(input).keys.len() as int)),
                final(input).values@.take(live_count(old(input).count, old(input).keys.len() as int)),
            ),
            forall|k: int| live_count(old(input).count, old(input).keys.len() as int) <= k < old(input).keys.len()
                ==> #[trigger] final(input).keys[k] == old(input).keys[k],
            forall|k: int| live_count(old(input).count, old(input).keys.len() as int) <= k < old(input).keys.len()
                ==> #[trigger] final(input).values[k] == old(input).values[k],
    {
        self.encode_internal(input, 2);
        let ghost n = live_count(old(input).count, old(input).keys.len() as int);
        proof {
            let a = old(input).keys@.take(n);
            let b = input.keys@.take(n);
            let va = old(input).values@.take(n);
            let vb = input.values@.take(n);
            if forall|k: int| 0 <= k < n ==> #[trigger] old(input).keys[k] < 0x1_0000 {
                let perm = choose|perm: Seq<int>| sorted_by_low_digits(a, b, perm, 2) && follows(va, vb, perm);
                assert forall|k: int| 0 <= k < a.len() implies #[trigger] a[k] < 0x1_0000 by {
                    assert(a[k] == old(input).keys[k]);
                }
                lemma_half_precision_suffices(a, b, perm);
            }
        }
    }

    fn encode_internal<V: Copy>(&mut self, input: &mut RadixSortByInput<V>, radix_groups: usize)
        requires
            old(self).wf(),
            radix_groups == 2 || radix_groups == 4,
            old(input).keys.len() == old(input).temporary_key_storage.len(),
            old(input).keys.len() == old(input).values.len(),
            old(input).keys.len() == old(input).temporary_value_storage.len(),
            old(input).keys.len() <= VALUE_MASK,
            old(input).count matches Some(c) ==> c <= old(input).keys.len(),
        ensures
            final(self).wf(),
            final(input).count == old(input).count,
            final(input).keys.len() == old(input).keys.len(),
            final(input).values.len() == old(input).values.len(),
            final(input).temporary_key_storage.len() == old(input).temporary_key_storage.len(),
            final(input).temporary_value_storage.len() == old(input).temporary_value_storage.len(),
            sorted_by_on_low_digits(
                old(input).keys@.take(live_count(old(input).count, old(input).keys.len() as int)),
                old(input).values@.take(live_count(old(input).count, old(input).keys.len() as int)),
                final(input).keys@.take(live_count(old(input).count, old(input).keys.len() as int)),
                final(input).values@.take(live_count(old(input).count, old(input).keys.len() as int)),
                radix_groups as int,
            ),
            forall|k: int| live_count(old(input).count, old(input).keys.len() as int) <= k < old(input).keys.len()
                ==> #[trigger] final(input).keys[k] == old(input).keys[k],
            forall|k: int| live_count(old(input).count, old(input).keys.len() as int) <= k < old(input).keys.len()
                ==> #[trigger] final(input).values[k] == old(input).values[k],
    {
        let ghost keys = input.keys@;
        let ghost values = input.values@;
        let fallback_count = input.keys.len() as u32;
        let dispatch_indirect = input.count.is_some();
        let count = CountBuffer::new(input.count, fallback_count);
        let n = count.uniform();
        let ghost nn = n as int;
        assert(nn == live_count(old(input).count, old(input).keys.len() as int));
        if dispatch_indirect {
            self.generate_dispatches.encode(&self.segment_sizes, n, &mut self.histogram_dispatch, &mut self.scatter_dispatch);
        }
        self.global_bucket_data = vec![0u32; 1024];
        self.bucket_histogram.encode(n, &input.keys, &mut self.global_bucket_data, dispatch_indirect, &self.histogram_dispatch, fallback_count);
        let ghost hist = self.global_bucket_data@;
        self.global_bucket_offsets.encode(&mut self.global_bucket_data);
        proof {
            assert forall|q: int, d: int| 0 <= q < 4 && 0 <= d < 256 implies #[trigger] self.global_bucket_data[slot(q, d)]
                == digit_offset(keys, q, d, nn) by {
                assert forall|e: int| 0 <= e < 256 implies #[trigger] hist[slot(q, e)] == digit_count(keys, q, e, nn) by {
                }
                lemma_row_offsets(hist, keys, q, nn, d);
                lemma_digit_offset_mono(keys, q, d, 256, nn);
                lemma_digit_offset_all(keys, q, nn);
                lemma_wrap_small(digit_offset(keys, q, d, nn) as int);
            }
        }
        let ghost mut perm: Seq<int> = Seq::new(nn as nat, |k: int| k);
        proof {
            lemma_no_digits(keys.take(nn));
        }
        let mut i: usize = 0;
        while i < radix_groups
            invariant
                i <= radix_groups,
                radix_groups == 2 || radix_groups == 4,
                self.wf(),
                self.global_bucket_data.len() == 1024,
                forall|q: int, d: int| 0 <= q < 4 && 0 <= d < 256 ==> #[trigger] self.global_bucket_data[slot(q, d)]
                    == digit_offset(keys, q, d, nn),
                keys == old(input).keys@,
                values == old(input).values@,
                nn == n,
                nn == live_count(old(input).count, old(input).keys.len() as int),
                n <= fallback_count <= VALUE_MASK,
                fallback_count == keys.len(),
                dispatch_indirect ==> self.scatter_dispatch.count_x == div_ceil(nn, 1024),
                input.count == old(input).count,
                input.keys.len() == fallback_count,
                input.values.len() == fallback_count,
                input.temporary_key_storage.len() == fallback_count,
                input.temporary_value_storage.len() == fallback_count,
                i % 2 == 0 ==> sorted_by_low_digits(keys.take(nn), input.keys@.take(nn), perm, i as int),
                i % 2 == 0 ==> follows(values.take(nn), input.values@.take(nn), perm),
                i % 2 == 1 ==> sorted_by_low_digits(keys.take(nn), input.temporary_key_storage@.take(nn), perm, i as int),
                i % 2 == 1 ==> follows(values.take(nn), input.temporary_value_storage@.take(nn), perm),
                forall|k: int| nn <= k < fallback_count ==> #[trigger] input.keys[k] == keys[k],
                forall|k: int| nn <= k < fallback_count ==> #[trigger] input.values[k] == values[k],
            decreases radix_groups - i,
        {
            let ghost cur = if i % 2 == 0 { input.keys@ } else { input.temporary_key_storage@ };
            let ghost cur_values = if i % 2 == 0 { input.values@ } else { input.temporary_value_storage@ };
            proof {
                assert forall|d: int| 0 <= d < 256 implies #[trigger] self.global_bucket_data[i * 256 + d]
                    == digit_offset(cur, i as int, d, nn) by {
                    assert(i * 256 + d == slot(i as int, d));
                    assert forall|k: int| 0 <= k < nn implies #[trigger] cur[k] == keys[perm[k]] by {
                        assert(cur.take(nn)[k] == keys.take(nn)[perm[k]]);
                    }
                    lemma_digit_offset_permuted(keys, cur, perm, i as int, d, nn);
                }
            }
            if i % 2 == 0 {
                self.bucket_scatter_by.encode(&input.keys, &mut input.temporary_key_storage, &input.values, &mut input.temporary_value_storage, &self.global_bucket_data, i as u32, n, dispatch_indirect, &self.scatter_dispatch, fallback_count);
                proof {
                    lemma_scatter_sorts(cur, input.temporary_key_storage@, i as int, nn);
                    lemma_scatter_carries(cur, cur_values, input.temporary_value_storage@, i as int, nn);
                }
            } else {
                self.bucket_scatter_by.encode(&input.temporary_key_storage, &mut input.keys, &input.temporary_value_storage, &mut input.values, &self.global_bucket_data, i as u32, n, dispatch_indirect, &self.scatter_dispatch, fallback_count);
                proof {
                    lemma_scatter_sorts(cur, input.keys@, i as int, nn);
                    lemma_scatter_carries(cur, cur_values, input.values@, i as int, nn);
                }
            }
            let ghost out = if i % 2 == 0 { input.temporary_key_storage@ } else { input.keys@ };
            let ghost out_values = if i % 2 == 0 { input.temporary_value_storage@ } else { input.values@ };
            proof {
                let step = inverse(destinations(cur, i as int, nn), nn);
                lemma_pass_extends(keys.take(nn), cur.take(nn), out.take(nn), perm, step, i as int);
                lemma_follows_compose(values.take(nn), cur_values.take(nn), out_values.take(nn), perm, step);
                perm = Seq::new(nn as nat, |k: int| perm[step[k]]);
            }
            i = i + 1;
        }
    }
}

} // verus!
