use crate::radix_sort::bucket_scatter::slot;
use crate::radix_sort::{RADIX_DIGITS, RADIX_GROUPS};
use crate::sum::{lemma_sum_nonneg, lemma_wrap_add, sum, wrap};
use vstd::prelude::*;

verus! {

/// The kernel that turns each digit histogram row into the offsets of the digits:
/// one workgroup per row, an exclusive scan in place.
pub struct GlobalBucketOffsets {}

impl GlobalBucketOffsets {
    pub fn init() -> (r: Self) {
        GlobalBucketOffsets {}
    }

    /// Replaces entry `d` of each row by the wrapped sum of the entries before it.
    pub fn encode(&self, global_bucket_data: &mut Vec<u32>)
        requires
            old(global_bucket_data).len() == 1024,
        ensures
            final(global_bucket_data).len() == 1024,
            forall|q: int, d: int| 0 <= q < 4 && 0 <= d < 256 ==> #[trigger] final(global_bucket_data)[slot(q, d)]
                == wrap(sum(old(global_bucket_data)@.subrange(slot(q, 0), slot(q, d)))),
    {
        let ghost h = global_bucket_data@;
        let mut q: usize = 0;
        while q < RADIX_GROUPS
            invariant
                q <= 4,
                global_bucket_data.len() == 1024,
                h == old(global_bucket_data)@,
                h.len() == 1024,
                forall|r: int, d: int| 0 <= r < q && 0 <= d < 256 ==> #[trigger] global_bucket_data[slot(r, d)]
                    == wrap(sum(h.subrange(slot(r, 0), slot(r, d)))),
                forall|k: int| slot(q as int, 0) <= k < 1024 ==> #[trigger] global_bucket_data[k] == h[k],
            decreases 4 - q,
        {
            let mut acc: u32 = 0;
            let mut d: usize = 0;
            proof {
                assert(h.subrange(slot(q as int, 0), slot(q as int, 0)) =~= Seq::<u32>::empty());
            }
            while d < RADIX_DIGITS
                invariant
                    q < 4,
                    d <= 256,
                    global_bucket_data.len() == 1024,
                    h == old(global_bucket_data)@,
                    h.len() == 1024,
                    acc == wrap(sum(h.subrange(slot(q as int, 0), slot(q as int, d as int)))),
                    forall|r: int, e: int| 0 <= r < q && 0 <= e < 256 ==> #[trigger] global_bucket_data[slot(r, e)]
                        == wrap(sum(h.subrange(slot(r, 0), slot(r, e)))),
                    forall|e: int| 0 <= e < d ==> #[trigger] global_bucket_data[slot(q as int, e)]
                        == wrap(sum(h.subrange(slot(q as int, 0), slot(q as int, e)))),
                    forall|k: int| slot(q as int, d as int) <= k < 1024 ==> #[trigger] global_bucket_data[k] == h[k],
                decreases 256 - d,
            {
                let k = q * 256 + d;
                let v = global_bucket_data[k];
                global_bucket_data.set(k, acc);
                proof {
                    let a = h.subrange(slot(q as int, 0), slot(q as int, d as int));
                    let b = h.subrange(slot(q as int, 0), slot(q as int, d as int + 1));
                    assert(b.drop_last() =~= a);
                    lemma_sum_nonneg(a);
                    lemma_wrap_add(sum(a), v);
                }
                acc = acc.wrapping_add(v);
                d = d + 1;
            }
            q = q + 1;
        }
    }
}

} // verus!
