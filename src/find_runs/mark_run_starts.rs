use crate::find_runs::runs::{is_run_start, run_marks};
use crate::generate_dispatch::{div_ceil, lemma_div_ceil, workgroup_count, DispatchWorkgroups};
use crate::find_runs::GROUPS_SIZE;
use crate::word::{words, Word};
use vstd::arithmetic::div_mod::lemma_div_is_ordered;
use vstd::prelude::*;

verus! {

/// The kernel that marks with one each element that starts a run, one thread per
/// element.
pub struct MarkRunStarts<T> {
    marker: core::marker::PhantomData<T>,
}

impl<T: Word> MarkRunStarts<T> {
    fn init_internal() -> (r: Self) {
        MarkRunStarts { marker: core::marker::PhantomData }
    }

    /// Writes, for each of the first `count` elements, one where it starts a run
    /// (it is the first, or its bits differ from the previous element's) and zero
    /// elsewhere. Entries from `count` on are left as they were.
    pub fn encode(
        &self,
        count: u32,
        data: &Vec<T>,
        temporary_storage: &mut Vec<u32>,
        dispatch_indirect: bool,
        dispatch: &DispatchWorkgroups,
        fallback_count: u32,
    )
        requires
            data.len() == fallback_count,
            old(temporary_storage).len() >= count,
            count <= fallback_count < 0x4000_0000,
            dispatch_indirect ==> dispatch.count_x == div_ceil(count as int, 256),
        ensures
            final(temporary_storage).len() == old(temporary_storage).len(),
            final(temporary_storage)@.take(count as int) == run_marks(words(data@.take(count as int))),
            forall|k: int| count <= k < old(temporary_storage).len() ==> #[trigger] final(temporary_storage)[k] == old(temporary_storage)[k],
    {
        let ghost w = words(data@.take(count as int));
        let fallback_groups = workgroup_count(fallback_count, GROUPS_SIZE);
        proof {
            lemma_div_ceil(fallback_count as int, 256);
            lemma_div_ceil(count as int, 256);
            lemma_div_is_ordered(count + 255, fallback_count + 255, 256);
            lemma_div_is_ordered(fallback_count + 255, 0x4000_0000int + 255, 256);
        }
        let groups = if dispatch_indirect { dispatch.count_x } else { fallback_groups };
        let threads = groups as usize * 256;
        let n = count as usize;
        let mut t: usize = 0;
        while t < threads
            invariant
                t <= threads,
                threads >= n,
                n == count,
                count <= fallback_count,
                data.len() == fallback_count,
                temporary_storage.len() == old(temporary_storage).len(),
                temporary_storage.len() >= count,
                w == words(data@.take(count as int)),
                forall|k: int| 0 <= k < t && k < n ==> #[trigger] temporary_storage[k] == run_marks(w)[k],
                forall|k: int| t <= k < temporary_storage.len() || count <= k < temporary_storage.len() ==> #[trigger] temporary_storage[k] == old(temporary_storage)[k],
            decreases threads - t,
        {
            if t < n {
                let v = data[t].to_word();
                let start = t == 0 || v != data[t - 1].to_word();
                proof {
                    assert(start == is_run_start(w, t as int));
                }
                temporary_storage.set(t, if start { 1 } else { 0 });
            }
            t = t + 1;
        }
        assert(temporary_storage@.take(count as int) =~= run_marks(w));
    }
}

impl MarkRunStarts<u32> {
    pub fn init_u32() -> (r: Self) {
        Self::init_internal()
    }
}

impl MarkRunStarts<i32> {
    pub fn init_i32() -> (r: Self) {
        Self::init_internal()
    }
}

} // verus!
