use crate::generate_dispatch::{div_ceil, DispatchWorkgroups};
use crate::radix_sort::bucket_scatter::{covering_groups, key_digit, lemma_tile_start_mono, slot, tile_bounds, tile_start, VALUE_MASK};
use crate::radix_sort::digits::{digit_count, lemma_digit_count_bounds};
use crate::radix_sort::{RADIX_DIGITS, RADIX_GROUPS, RADIX_SIZE};
use vstd::prelude::*;

verus! {

pub const GROUP_SIZE: u32 = 256;
pub const GROUP_ITERATIONS: u32 = 4;
/// Elements per workgroup of the histogram kernel.
pub const BUCKET_HISTOGRAM_SEGMENT_SIZE: u32 = 1024;

/// The kernel that counts, for each of the four digits of a key, how many keys have
/// each digit value, in one read of the keys.
pub struct BucketHistogram {}

impl BucketHistogram {
    pub fn init_u32() -> (r: Self) {
        BucketHistogram {}
    }

    /// Adds to row `p` of `global_histograms` the number of the first `max_count` keys
    /// that have each value as their digit `p`, for all four digits. Each workgroup
    /// counts its tile in its own histograms, then folds them into the global rows.
    pub fn encode(
        &self,
        max_count: u32,
        data: &Vec<u32>,
        global_histograms: &mut Vec<u32>,
        dispatch_indirect: bool,
        dispatch: &DispatchWorkgroups,
        fallback_count: u32,
    )
        requires
            data.len() == fallback_count,
            max_count <= fallback_count <= VALUE_MASK,
            old(global_histograms).len() == 1024,
            forall|k: int| 0 <= k < 1024 ==> #[trigger] old(global_histograms)[k] <= 0xFFFF_FFFF - max_count,
            dispatch_indirect ==> dispatch.count_x == div_ceil(max_count as int, 1024),
        ensures
            final(global_histograms).len() == 1024,
            forall|p: int, d: int| 0 <= p < 4 && 0 <= d < 256 ==> #[trigger] final(global_histograms)[slot(p, d)]
                == old(global_histograms)[slot(p, d)] + digit_count(data@, p, d, max_count as int),
    {
        let ghost keys = data@;
        let ghost nn = max_count as int;
        let ghost h = global_histograms@;
        let (groups, fallback_groups) = covering_groups(max_count, dispatch_indirect, dispatch, fallback_count);
        let n = max_count as usize;
        let mut g: u32 = 0;
        while g < groups
            invariant
                g <= groups <= fallback_groups <= 0x10_0000,
                groups * 1024 >= nn,
                keys == data@,
                nn == max_count,
                n == max_count,
                max_count <= fallback_count <= VALUE_MASK,
                data.len() == fallback_count,
                global_histograms.len() == 1024,
                h == old(global_histograms)@,
                forall|k: int| 0 <= k < 1024 ==> #[trigger] h[k] <= 0xFFFF_FFFF - max_count,
                forall|p: int, d: int| 0 <= p < 4 && 0 <= d < 256 ==> #[trigger] global_histograms[slot(p, d)]
                    == h[slot(p, d)] + digit_count(keys, p, d, tile_start(g as int, nn)),
            decreases groups - g,
        {
            let (start, end) = tile_bounds(g as usize, n);
            proof {
                lemma_tile_start_mono(g as int, g + 1, nn);
            }
            let mut local: Vec<u32> = Vec::new();
            while local.len() < 1024
                invariant
                    local.len() <= 1024,
                    forall|k: int| 0 <= k < local.len() ==> #[trigger] local[k] == 0,
                decreases 1024 - local.len(),
            {
                local.push(0);
            }
            let mut i: usize = start;
            while i < end
                invariant
                    start <= i <= end <= data.len(),
                    end - start <= 1024,
                    keys == data@,
                    local.len() == 1024,
                    forall|p: int, d: int| 0 <= p < 4 && 0 <= d < 256 ==> #[trigger] local[slot(p, d)]
                        == digit_count(keys, p, d, i as int) - digit_count(keys, p, d, start as int),
                decreases end - i,
            {
                let key = data[i];
                let mut p: u32 = 0;
                while p < RADIX_GROUPS as u32
                    invariant
                        p <= 4,
                        start <= i < end <= data.len(),
                        end - start <= 1024,
                        keys == data@,
                        key == keys[i as int],
                        local.len() == 1024,
                        forall|r: int, d: int| 0 <= r < p && 0 <= d < 256 ==> #[trigger] local[slot(r, d)]
                            == digit_count(keys, r, d, i + 1) - digit_count(keys, r, d, start as int),
                        forall|r: int, d: int| p <= r < 4 && 0 <= d < 256 ==> #[trigger] local[slot(r, d)]
                            == digit_count(keys, r, d, i as int) - digit_count(keys, r, d, start as int),
                    decreases 4 - p,
                {
                    let d = key_digit(key, RADIX_SIZE * p, Ghost(p as int));
                    let k = p as usize * 256 + d;
                    proof {
                        lemma_digit_count_bounds(keys, p as int, d as int, start as int, i as int);
                        assert(k == slot(p as int, d as int));
                    }
                    local.set(k, local[k] + 1);
                    proof {
                        assert forall|r: int, e: int| 0 <= r < p + 1 && 0 <= e < 256 implies #[trigger] local[slot(r, e)]
                            == digit_count(keys, r, e, i + 1) - digit_count(keys, r, e, start as int) by {
                            if r == p && e != d {
                                assert(slot(r, e) != k);
                            }
                        }
                    }
                    p = p + 1;
                }
                i = i + 1;
            }
            let mut p: usize = 0;
            while p < RADIX_GROUPS
                invariant
                    p <= 4,
                    start == tile_start(g as int, nn),
                    end == tile_start(g + 1, nn),
                    start <= end <= nn,
                    keys == data@,
                    nn == max_count,
                    global_histograms.len() == 1024,
                    local.len() == 1024,
                    forall|k: int| 0 <= k < 1024 ==> #[trigger] h[k] <= 0xFFFF_FFFF - max_count,
                    forall|r: int, d: int| 0 <= r < 4 && 0 <= d < 256 ==> #[trigger] local[slot(r, d)]
                        == digit_count(keys, r, d, end as int) - digit_count(keys, r, d, start as int),
                    forall|r: int, d: int| 0 <= r < p && 0 <= d < 256 ==> #[trigger] global_histograms[slot(r, d)]
                        == h[slot(r, d)] + digit_count(keys, r, d, end as int),
                    forall|r: int, d: int| p <= r < 4 && 0 <= d < 256 ==> #[trigger] global_histograms[slot(r, d)]
                        == h[slot(r, d)] + digit_count(keys, r, d, start as int),
                decreases 4 - p,
            {
                let mut d: usize = 0;
                while d < RADIX_DIGITS
                    invariant
                        p < 4,
                        d <= 256,
                        start == tile_start(g as int, nn),
                        end == tile_start(g + 1, nn),
                        start <= end <= nn,
                        keys == data@,
                        nn == max_count,
                        global_histograms.len() == 1024,
                        local.len() == 1024,
                        forall|k: int| 0 <= k < 1024 ==> #[trigger] h[k] <= 0xFFFF_FFFF - max_count,
                        forall|r: int, e: int| 0 <= r < 4 && 0 <= e < 256 ==> #[trigger] local[slot(r, e)]
                            == digit_count(keys, r, e, end as int) - digit_count(keys, r, e, start as int),
                        forall|r: int, e: int| 0 <= r < p && 0 <= e < 256 ==> #[trigger] global_histograms[slot(r, e)]
                            == h[slot(r, e)] + digit_count(keys, r, e, end as int),
                        forall|e: int| 0 <= e < d ==> #[trigger] global_histograms[slot(p as int, e)]
                            == h[slot(p as int, e)] + digit_count(keys, p as int, e, end as int),
                        forall|r: int, e: int| p <= r < 4 && 0 <= e < 256 && !(r == p && e < d) ==> #[trigger] global_histograms[slot(r, e)]
                            == h[slot(r, e)] + digit_count(keys, r, e, start as int),
                    decreases 256 - d,
                {
                    let k = p * 256 + d;
                    proof {
                        assert(k == slot(p as int, d as int));
                        lemma_digit_count_bounds(keys, p as int, d as int, start as int, end as int);
                        lemma_digit_count_bounds(keys, p as int, d as int, 0, end as int);
                    }
                    global_histograms.set(k, global_histograms[k] + local[k]);
                    d = d + 1;
                }
                p = p + 1;
            }
            g = g + 1;
        }
        proof {
            lemma_tile_start_mono(g as int, g as int, nn);
        }
    }
}

} // verus!
