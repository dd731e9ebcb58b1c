use crate::generate_dispatch::{div_ceil, lemma_div_ceil, workgroup_count, DispatchWorkgroups};
use crate::find_runs::GROUPS_SIZE;
use vstd::arithmetic::div_mod::lemma_div_is_ordered;
use vstd::prelude::*;

verus! {

/// Element `i` is the first of its run in a run mapping.
pub open spec fn first_of_run(mapping: Seq<u32>, i: int) -> bool {
    i == 0 || mapping[i - 1] != mapping[i]
}

/// The kernel that writes the index of each run's first element to the run's slot,
/// one thread per element.
pub struct CollectRunStarts {}

impl CollectRunStarts {
    pub fn init() -> (r: Self) {
        CollectRunStarts {}
    }

    /// For each of the first `count` entries of the run mapping that is the first of
    /// its run, writes its index to `run_starts[mapping - 1]`. Other entries of
    /// `run_starts` are left as they were.
    pub fn encode(
        &self,
        count: u32,
        temporary_storage: &Vec<u32>,
        run_starts: &mut Vec<u32>,
        dispatch_indirect: bool,
        dispatch: &DispatchWorkgroups,
        fallback_count: u32,
    )
        requires
            temporary_storage.len() >= count,
            count <= fallback_count < 0x4000_0000,
            dispatch_indirect ==> dispatch.count_x == div_ceil(count as int, 256),
            forall|i: int| 0 <= i < count && first_of_run(temporary_storage@, i)
                ==> 1 <= #[trigger] temporary_storage[i] <= old(run_starts).len(),
            forall|i: int, j: int| 0 <= i < j < count && first_of_run(temporary_storage@, i) && first_of_run(temporary_storage@, j)
                ==> #[trigger] temporary_storage[i] != #[trigger] temporary_storage[j],
        ensures
            final(run_starts).len() == old(run_starts).len(),
            forall|i: int| 0 <= i < count && first_of_run(temporary_storage@, i)
                ==> final(run_starts)[#[trigger] temporary_storage[i] - 1] == i,
            forall|r: int| 0 <= r < old(run_starts).len() ==> #[trigger] final(run_starts)[r] == old(run_starts)[r]
                || exists|i: int| 0 <= i < count && first_of_run(temporary_storage@, i) && #[trigger] temporary_storage[i] - 1 == r,
    {
        let fallback_groups = workgroup_count(fallback_count, GROUPS_SIZE);
        proof {
            lemma_div_ceil(fallback_count as int, 256);
            lemma_div_ceil(count as int, 256);
            lemma_div_is_ordered(count + 255, fallback_count + 255, 256);
            lemma_div_is_ordered(fallback_count + 255, 0x4000_0000int + 255, 256);
        }
        let groups = if dispatch_indirect { dispatch.count_x } else { fallback_groups };
        let threads = groups as usize * 256;
        let n = count as usize;
        let ghost m = temporary_storage@;
        let mut t: usize = 0;
        while t < threads
            invariant
                t <= threads,
                threads >= n,
                n == count,
                count <= fallback_count,
                m == temporary_storage@,
                temporary_storage.len() >= count,
                run_starts.len() == old(run_starts).len(),
                forall|i: int| 0 <= i < count && first_of_run(m, i) ==> 1 <= #[trigger] m[i] <= run_starts.len(),
                forall|i: int, j: int| 0 <= i < j < count && first_of_run(m, i) && first_of_run(m, j)
                    ==> #[trigger] m[i] != #[trigger] m[j],
                forall|i: int| 0 <= i < t && i < count && first_of_run(m, i) ==> run_starts[#[trigger] m[i] - 1] == i,
                forall|r: int| 0 <= r < run_starts.len() ==> #[trigger] run_starts[r] == old(run_starts)[r]
                    || exists|i: int| 0 <= i < t && i < count && first_of_run(m, i) && #[trigger] m[i] - 1 == r,
            decreases threads - t,
        {
            if t < n {
                let v = temporary_storage[t];
                if t == 0 || temporary_storage[t - 1] != v {
                    let ghost before = run_starts@;
                    run_starts.set((v - 1) as usize, t as u32);
                    proof {
                        assert forall|i: int| 0 <= i < t + 1 && i < count && first_of_run(m, i) implies run_starts[#[trigger] m[i] - 1] == i by {
                            if i < t {
                                assert(m[i] != m[t as int]);
                            }
                        }
                        assert forall|r: int| 0 <= r < run_starts.len() implies #[trigger] run_starts[r] == old(run_starts)[r]
                            || exists|i: int| 0 <= i < t + 1 && i < count && first_of_run(m, i) && #[trigger] m[i] - 1 == r by {
                            if r == v - 1 {
                                assert(m[t as int] - 1 == r);
                            } else if before[r] != old(run_starts)[r] {
                                let i = choose|i: int| 0 <= i < t && i < count && first_of_run(m, i) && #[trigger] m[i] - 1 == r;
                                assert(m[i] - 1 == r);
                            }
                        }
                    }
                }
            }
            t = t + 1;
        }
    }
}

} // verus!
