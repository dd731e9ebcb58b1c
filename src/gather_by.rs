use crate::count_buffer::CountBuffer;
use crate::generate_dispatch::{lemma_div_ceil, workgroup_count, DispatchWorkgroups, GenerateDispatch};
use crate::radix_sort::live_count;
use crate::word::Word;
use vstd::prelude::*;

verus! {

/// Threads per workgroup, one output element each.
pub const GROUP_SIZE: u32 = 256;

/// `src` read through the first `n` indices of `by`: element `i` is `src[by[i]]`.
pub open spec fn gathered<B: Word, V>(by: Seq<B>, src: Seq<V>, n: int) -> Seq<V> {
    Seq::new(n as nat, |i: int| src[by[i].word() as int])
}

/// Gathering through the first `n` of the indices by a count gives the same values
/// as gathering through a list of just those `n` indices without one.
pub proof fn lemma_gather_count_equivalence<B: Word, V>(by: Seq<B>, src: Seq<V>, n: u32, with_count: Seq<V>, truncated: Seq<V>)
    requires
        n <= by.len(),
        with_count.take(live_count(Some(n), by.len() as int)) == gathered(by, src, live_count(Some(n), by.len() as int)),
        truncated.len() == n,
        truncated.take(live_count(None, n as int)) == gathered(by.take(n as int), src, live_count(None, n as int)),
    ensures
        with_count.take(n as int) == truncated,
{
    assert(truncated.take(n as int) =~= truncated);
    assert(gathered(by.take(n as int), src, n as int) =~= gathered(by, src, n as int));
}

/// The indices, the values to read through them, and how many to gather where it is
/// not as many as there are values.
pub struct GatherByInput<B, V> {
    pub gather_by: Vec<B>,
    pub data: Vec<V>,
    pub count: Option<u32>,
}

/// The kernel that reads values through an index buffer.
pub struct GatherBy<B, V> {
    generate_dispatch: GenerateDispatch,
    group_size: u32,
    dispatch: DispatchWorkgroups,
    by_marker: core::marker::PhantomData<B>,
    value_marker: core::marker::PhantomData<V>,
}

impl<B: Word, V: Copy> GatherBy<B, V> {
    pub closed spec fn wf(&self) -> bool {
        self.group_size == GROUP_SIZE
    }

    fn init_internal() -> (r: Self)
        ensures
            r.wf(),
    {
        GatherBy {
            generate_dispatch: GenerateDispatch::init(),
            group_size: GROUP_SIZE,
            dispatch: DispatchWorkgroups { count_x: 1, count_y: 1, count_z: 1 },
            by_marker: core::marker::PhantomData,
            value_marker: core::marker::PhantomData,
        }
    }

    /// Writes `output[i] = data[gather_by[i]]` for each `i` below `count` (for every
    /// index when there is no count). Later entries of `output` are left as they were.
    pub fn encode(&mut self, input: &GatherByInput<B, V>, output: &mut Vec<V>)
        requires
            old(self).wf(),
            input.gather_by.len() < 0x4000_0000,
            input.count matches Some(c) ==> c <= input.gather_by.len(),
            input.gather_by.len() == old(output).len(),
            forall|i: int| 0 <= i < live_count(input.count, input.gather_by.len() as int)
                ==> (#[trigger] input.gather_by[i]).word() < input.data.len(),
        ensures
            final(self).wf(),
            final(output).len() == old(output).len(),
            final(output)@.take(live_count(input.count, input.gather_by.len() as int))
                == gathered(input.gather_by@, input.data@, live_count(input.count, input.gather_by.len() as int)),
            final(output)@.skip(live_count(input.count, input.gather_by.len() as int))
                == old(output)@.skip(live_count(input.count, input.gather_by.len() as int)),
    {
        let len = input.gather_by.len() as u32;
        let dispatch_indirect = input.count.is_some();
        let count = CountBuffer::new(input.count, len);
        let n = count.uniform();
        let ghost nn = n as int;
        if dispatch_indirect {
            self.generate_dispatch.encode(self.group_size, n, &mut self.dispatch);
        }
        let workgroups = workgroup_count(len, GROUP_SIZE);
        proof {
            lemma_div_ceil(len as int, 256);
            lemma_div_ceil(nn, 256);
        }
        let groups = if dispatch_indirect { self.dispatch.count_x } else { workgroups };
        let threads = groups as usize * 256;
        let mut t: usize = 0;
        while t < threads
            invariant
                t <= threads,
                threads >= nn,
                nn == n,
                n <= input.gather_by.len(),
                input.gather_by.len() == output.len(),
                output.len() == old(output).len(),
                forall|i: int| 0 <= i < nn ==> (#[trigger] input.gather_by[i]).word() < input.data.len(),
                forall|i: int| 0 <= i < t && i < nn ==> #[trigger] output[i] == input.data[input.gather_by[i].word() as int],
                forall|i: int| nn <= i < output.len() ==> #[trigger] output[i] == old(output)[i],
            decreases threads - t,
        {
            if t < n as usize {
                let src = input.gather_by[t].to_word() as usize;
                output.set(t, input.data[src]);
            }
            t = t + 1;
        }
        proof {
            assert(output@.take(nn) =~= gathered(input.gather_by@, input.data@, nn));
            assert(output@.skip(nn) =~= old(output)@.skip(nn));
        }
    }
}

impl<V: Copy> GatherBy<u32, V> {
    pub fn init_u32() -> (r: Self)
        ensures
            r.wf(),
    {
        Self::init_internal()
    }
}

impl<V: Copy> GatherBy<i32, V> {
    pub fn init_i32() -> (r: Self)
        ensures
            r.wf(),
    {
        Self::init_internal()
    }
}

} // verus!
