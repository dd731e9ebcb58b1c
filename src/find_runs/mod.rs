use crate::count_buffer::CountBuffer;
use crate::find_runs::collect_run_starts::{first_of_run, CollectRunStarts};
use crate::find_runs::mark_run_starts::MarkRunStarts;
use crate::find_runs::resolve_run_count::ResolveRunCount;
use crate::find_runs::runs::{
    is_run_start, lemma_run_number_bounds, lemma_run_starts_agree, records_run_starts, lemma_run_number_step, lemma_run_start_number, run_marks, run_number,
    run_total,
};
use crate::generate_dispatch::{DispatchWorkgroups, GenerateDispatch};
use crate::prefix_sum::PrefixSum;
use crate::radix_sort::live_count;
use crate::sum::{inclusive_scan, lemma_wrap_small};
use crate::word::{words, Word};
use vstd::prelude::*;

pub mod collect_run_starts;
pub mod mark_run_starts;
pub mod resolve_run_count;
pub mod runs;

verus! {

/// Threads per workgroup of the run kernels, one element each.
pub const GROUPS_SIZE: u32 = 256;

/// The elements to split into runs, and how many of them where it is not all.
pub struct FindRunsInput<T> {
    pub data: Vec<T>,
    pub count: Option<u32>,
}

/// Where the runs are written: their number, the index of each run's first element,
/// and for each element the one-based number of its run.
pub struct FindRunsOutput {
    pub run_count: u32,
    pub run_starts: Vec<u32>,
    pub run_mapping: Vec<u32>,
}

/// Splits data into runs of bitwise equal elements: mark the run starts, scan the
/// marks inclusively into run numbers, collect the start of each run, and read off
/// the number of runs.
pub struct FindRuns<T> {
    mark_run_starts: MarkRunStarts<T>,
    prefix_sum_inclusive: PrefixSum<u32>,
    collect_run_starts: CollectRunStarts,
    resolve_run_count: ResolveRunCount,
    generate_dispatch: GenerateDispatch,
    group_size: u32,
    dispatch: DispatchWorkgroups,
}

proof fn lemma_words_u32(s: Seq<u32>)
    ensures
        words(s) == s,
{
    assert(words(s) =~= s);
}

impl<T: Word> FindRuns<T> {
    pub closed spec fn wf(&self) -> bool {
        &&& self.prefix_sum_inclusive.wf()
        &&& self.prefix_sum_inclusive.is_inclusive()
        &&& self.group_size == GROUPS_SIZE
    }

    fn init_internal(mark_run_starts: MarkRunStarts<T>) -> (r: Self)
        ensures
            r.wf(),
    {
        FindRuns {
            mark_run_starts,
            prefix_sum_inclusive: PrefixSum::init_inclusive_u32(),
            collect_run_starts: CollectRunStarts::init(),
            resolve_run_count: ResolveRunCount::init(),
            generate_dispatch: GenerateDispatch::init(),
            group_size: GROUPS_SIZE,
            dispatch: DispatchWorkgroups { count_x: 1, count_y: 1, count_z: 1 },
        }
    }

    /// Splits the first `count` elements (all elements when there is no count) into
    /// maximal runs of elements with equal bits. `run_count` becomes the number of
    /// runs; `run_mapping[i]` the one-based number of the run that holds element `i`
    /// (zero past `count`); and `run_starts[r - 1]` the index of the first element of
    /// run `r`, for each run. Entries of `run_starts` from the run count on are left
    /// as they were.
    pub fn encode(&mut self, input: &FindRunsInput<T>, output: &mut FindRunsOutput)
        requires
            old(self).wf(),
            input.data.len() < 0x4000_0000,
            input.count matches Some(c) ==> c <= input.data.len(),
            old(output).run_mapping.len() >= live_count(input.count, input.data.len() as int),
            old(output).run_mapping.len() < 0x4000_0000,
            old(output).run_starts.len() >= live_count(input.count, input.data.len() as int),
        ensures
            final(self).wf(),
            final(output).run_mapping.len() == old(output).run_mapping.len(),
            final(output).run_starts.len() == old(output).run_starts.len(),
            final(output).run_count == run_total(words(input.data@.take(live_count(input.count, input.data.len() as int)))),
            forall|i: int| 0 <= i < live_count(input.count, input.data.len() as int)
                ==> #[trigger] final(output).run_mapping[i] == run_number(words(input.data@.take(live_count(input.count, input.data.len() as int))), i),
            forall|i: int| live_count(input.count, input.data.len() as int) <= i < old(output).run_mapping.len()
                ==> #[trigger] final(output).run_mapping[i] == 0,
            records_run_starts(words(input.data@.take(live_count(input.count, input.data.len() as int))), final(output).run_starts@),
            forall|r: int| run_total(words(input.data@.take(live_count(input.count, input.data.len() as int)))) <= r < old(output).run_starts.len()
                ==> #[trigger] final(output).run_starts[r] == old(output).run_starts[r],
    {
        let len = input.data.len() as u32;
        let dispatch_indirect = input.count.is_some();
        let count = CountBuffer::new(input.count, len);
        let n = count.uniform();
        let ghost nn = n as int;
        let ghost w = words(input.data@.take(nn));
        if dispatch_indirect {
            self.generate_dispatch.encode(self.group_size, n, &mut self.dispatch);
        }
        let mapping_len = output.run_mapping.len();
        output.run_mapping = vec![0u32; mapping_len];
        self.mark_run_starts.encode(n, &input.data, &mut output.run_mapping, dispatch_indirect, &self.dispatch, len);
        let ghost marked = output.run_mapping@;
        let scan_count = if dispatch_indirect || mapping_len != n as usize { Some(n) } else { None };
        self.prefix_sum_inclusive.scan(&mut output.run_mapping, scan_count);
        proof {
            assert(live_count(scan_count, mapping_len as int) == nn);
            lemma_words_u32(output.run_mapping@.take(nn));
            lemma_words_u32(marked.take(nn));
            assert(output.run_mapping@.take(nn) == inclusive_scan(run_marks(w)));
            assert forall|i: int| 0 <= i < nn implies #[trigger] output.run_mapping[i] == run_number(w, i) by {
                assert(output.run_mapping@.take(nn)[i] == output.run_mapping[i]);
                lemma_run_number_bounds(w, i);
                lemma_wrap_small(run_number(w, i));
            }
            assert forall|i: int| nn <= i < mapping_len implies #[trigger] output.run_mapping[i] == 0 by {
                assert(output.run_mapping@.skip(nn)[i - nn] == marked.skip(nn)[i - nn]);
            }
            let m = output.run_mapping@;
            assert forall|i: int| 0 <= i < nn implies first_of_run(m, i) == is_run_start(w, i) by {
                if i > 0 {
                    lemma_run_number_step(w, i);
                }
            }
            assert forall|i: int| 0 <= i < nn && first_of_run(m, i) implies 1 <= #[trigger] m[i] <= output.run_starts.len() by {
                lemma_run_number_bounds(w, i);
            }
            assert forall|i: int, j: int| 0 <= i < j < nn && first_of_run(m, i) && first_of_run(m, j)
                implies #[trigger] m[i] != #[trigger] m[j] by {
                lemma_run_start_number(w, i, j);
            }
        }
        let ghost starts_before = output.run_starts@;
        self.collect_run_starts.encode(n, &output.run_mapping, &mut output.run_starts, dispatch_indirect, &self.dispatch, len);
        proof {
            let m = output.run_mapping@;
            assert(w.len() == nn);
            crate::sum::lemma_sum_nonneg(run_marks(w));
            assert forall|r: int| run_total(w) <= r < starts_before.len() implies #[trigger] output.run_starts[r] == starts_before[r] by {
                if output.run_starts[r] != starts_before[r] {
                    let i = choose|i: int| 0 <= i < nn && first_of_run(m, i) && #[trigger] m[i] - 1 == r;
                    lemma_run_number_bounds(w, i);
                }
            }
        }
        self.resolve_run_count.encode(n, &output.run_mapping, &mut output.run_count);
        proof {
            reveal(records_run_starts);
            assert forall|i: int| 0 <= i < w.len() && is_run_start(w, i) implies output.run_starts[#[trigger] run_number(w, i) - 1] == i by {
                assert(w.len() == nn);
                assert(first_of_run(output.run_mapping@, i));
                assert(output.run_mapping@[i] == run_number(w, i));
                assert(1 <= output.run_mapping@[i] <= output.run_starts.len());
            }
            if nn > 0 {
                assert(run_marks(w).take(nn) =~= run_marks(w));
            } else {
                assert(run_marks(w) =~= Seq::<u32>::empty());
            }
        }
    }
}

/// Finding the runs of the first `n` elements of a buffer through a count gives the
/// same run count, run mapping and run starts as finding those of a buffer of just
/// those `n` elements without one.
pub proof fn lemma_find_runs_count_equivalence<T: Word>(
    data: Seq<T>,
    n: u32,
    count1: u32,
    mapping1: Seq<u32>,
    starts1: Seq<u32>,
    count2: u32,
    mapping2: Seq<u32>,
    starts2: Seq<u32>,
)
    requires
        n <= data.len(),
        count1 == run_total(words(data.take(live_count(Some(n), data.len() as int)))),
        forall|i: int| 0 <= i < live_count(Some(n), data.len() as int)
            ==> #[trigger] mapping1[i] == run_number(words(data.take(live_count(Some(n), data.len() as int))), i),
        records_run_starts(words(data.take(live_count(Some(n), data.len() as int))), starts1),
        count2 == run_total(words(data.take(n as int).take(live_count(None, n as int)))),
        forall|i: int| 0 <= i < live_count(None, n as int)
            ==> #[trigger] mapping2[i] == run_number(words(data.take(n as int).take(live_count(None, n as int))), i),
        records_run_starts(words(data.take(n as int).take(live_count(None, n as int))), starts2),
    ensures
        count1 == count2,
        forall|i: int| 0 <= i < n ==> #[trigger] mapping1[i] == mapping2[i],
        forall|r: int| 0 <= r < count1 ==> #[trigger] starts1[r] == starts2[r],
{
    assert(data.take(n as int).take(n as int) =~= data.take(n as int));
    let w = words(data.take(n as int));
    assert forall|i: int| 0 <= i < n implies #[trigger] mapping1[i] == mapping2[i] by {
        assert(mapping1[i] == run_number(w, i));
    }
    lemma_run_starts_agree(w, starts1, starts2);
}

impl FindRuns<u32> {
    pub fn init_u32() -> (r: Self)
        ensures
            r.wf(),
    {
        Self::init_internal(MarkRunStarts::init_u32())
    }
}

impl FindRuns<i32> {
    pub fn init_i32() -> (r: Self)
        ensures
            r.wf(),
    {
        Self::init_internal(MarkRunStarts::init_i32())
    }
}

} // verus!
