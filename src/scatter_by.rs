use crate::count_buffer::CountBuffer;
use crate::gather_by::gathered;
use crate::permutation::{is_permutation, lemma_permutation_onto, reaches};
use crate::generate_dispatch::{lemma_div_ceil, workgroup_count, DispatchWorkgroups, GenerateDispatch};
use crate::radix_sort::live_count;
use crate::word::Word;
use vstd::prelude::*;

verus! {

/// Threads per workgroup, one input element each.
pub const GROUP_SIZE: u32 = 256;

/// The first `n` indices of `by` are distinct.
pub open spec fn distinct_indices<B: Word>(by: Seq<B>, n: int) -> bool {
    forall|i: int, j: int| 0 <= i < n && 0 <= j < n && i != j ==> (#[trigger] by[i]).word() != (#[trigger] by[j]).word()
}

/// `dst` after `src[i]` is written to `dst[by[i]]` for each `i` below `n` in turn,
/// so that where two indices are equal the later write stands.
pub open spec fn scattered<B: Word, V>(by: Seq<B>, src: Seq<V>, n: int, dst: Seq<V>) -> Seq<V>
    decreases n,
{
    if n <= 0 {
        dst
    } else {
        scattered(by, src, n - 1, dst).update(by[n - 1].word() as int, src[n - 1])
    }
}

/// Scattering keeps the length, leaves every entry that no index names as it was,
/// and, where the indices are distinct, puts each value at its index.
pub proof fn lemma_scattered<B: Word, V>(by: Seq<B>, src: Seq<V>, n: int, dst: Seq<V>)
    requires
        0 <= n <= by.len(),
        n <= src.len(),
        forall|i: int| 0 <= i < n ==> (#[trigger] by[i]).word() < dst.len(),
    ensures
        scattered(by, src, n, dst).len() == dst.len(),
        forall|k: int| 0 <= k < dst.len() && (forall|i: int| 0 <= i < n ==> (#[trigger] by[i]).word() != k)
            ==> #[trigger] scattered(by, src, n, dst)[k] == dst[k],
        distinct_indices(by, n) ==> forall|i: int| 0 <= i < n ==> #[trigger] scattered(by, src, n, dst)[by[i].word() as int] == src[i],
    decreases n,
{
    if n > 0 {
        lemma_scattered(by, src, n - 1, dst);
        let prev = scattered(by, src, n - 1, dst);
        assert forall|k: int| 0 <= k < dst.len() && (forall|i: int| 0 <= i < n ==> (#[trigger] by[i]).word() != k)
            implies #[trigger] scattered(by, src, n, dst)[k] == dst[k] by {
            assert(by[n - 1].word() != k);
            assert forall|i: int| 0 <= i < n - 1 implies (#[trigger] by[i]).word() != k by {
            }
        }
        if distinct_indices(by, n) {
            assert forall|i: int| 0 <= i < n implies #[trigger] scattered(by, src, n, dst)[by[i].word() as int] == src[i] by {
                if i < n - 1 {
                    assert(by[i].word() != by[n - 1].word());
                }
            }
        }
    }
}

/// Scattering, through indices that are a permutation, the values gathered through
/// the same indices gives back the original values, whatever the output held.
pub proof fn lemma_gather_scatter_inverse<B: Word, V>(by: Seq<B>, x: Seq<V>, dst: Seq<V>)
    requires
        by.len() == x.len(),
        dst.len() == x.len(),
        forall|i: int| 0 <= i < by.len() ==> (#[trigger] by[i]).word() < by.len(),
        distinct_indices(by, by.len() as int),
    ensures
        scattered(by, gathered(by, x, by.len() as int), by.len() as int, dst) == x,
{
    let n = by.len() as int;
    let g = gathered(by, x, n);
    let perm = Seq::new(n as nat, |i: int| by[i].word() as int);
    assert(is_permutation(perm, n));
    lemma_permutation_onto(perm, n);
    lemma_scattered(by, g, n, dst);
    let r = scattered(by, g, n, dst);
    assert forall|k: int| 0 <= k < n implies #[trigger] r[k] == x[k] by {
        assert(reaches(perm, n, k));
        let i = choose|i: int| 0 <= i < n && #[trigger] perm[i] == k;
        assert(r[by[i].word() as int] == g[i]);
    }
    assert(r =~= x);
}

/// The indices, the values to write through them, and how many to scatter where it
/// is not as many as there are values.
pub struct ScatterByInput<B, V> {
    pub scatter_by: Vec<B>,
    pub data: Vec<V>,
    pub count: Option<u32>,
}

/// The kernel that writes values through an index buffer.
pub struct ScatterBy<B, V> {
    generate_dispatch: GenerateDispatch,
    group_size: u32,
    dispatch: DispatchWorkgroups,
    by_marker: core::marker::PhantomData<B>,
    value_marker: core::marker::PhantomData<V>,
}

impl<B: Word, V: Copy> ScatterBy<B, V> {
    pub closed spec fn wf(&self) -> bool {
        self.group_size == GROUP_SIZE
    }

    fn init_internal() -> (r: Self)
        ensures
            r.wf(),
    {
        ScatterBy {
            generate_dispatch: GenerateDispatch::init(),
            group_size: GROUP_SIZE,
            dispatch: DispatchWorkgroups { count_x: 1, count_y: 1, count_z: 1 },
            by_marker: core::marker::PhantomData,
            value_marker: core::marker::PhantomData,
        }
    }

    /// Writes `output[scatter_by[i]] = data[i]` for each `i` below `count` (below the
    /// number of values when there is no count). Entries that no index names are
    /// left as they were. Where the indices are distinct, each named entry holds the
    /// value of the one index that names it; where they are not, it holds the value
    /// of one of them.
    pub fn encode(&mut self, input: &ScatterByInput<B, V>, output: &mut Vec<V>)
        requires
            old(self).wf(),
            input.data.len() < 0x4000_0000,
            input.count matches Some(c) ==> c <= input.data.len(),
            input.scatter_by.len() == input.data.len(),
            forall|i: int| 0 <= i < live_count(input.count, input.data.len() as int)
                ==> (#[trigger] input.scatter_by[i]).word() < old(output).len(),
        ensures
            final(self).wf(),
            final(output)@ == scattered(input.scatter_by@, input.data@, live_count(input.count, input.data.len() as int), old(output)@),
            final(output).len() == old(output).len(),
            distinct_indices(input.scatter_by@, live_count(input.count, input.data.len() as int))
                ==> forall|i: int| 0 <= i < live_count(input.count, input.data.len() as int)
                ==> #[trigger] final(output)[input.scatter_by[i].word() as int] == input.data[i],
    {
        let len = input.data.len() as u32;
        let dispatch_indirect = input.count.is_some();
        let count = CountBuffer::new(input.count, len);
        let n = count.uniform();
        let ghost nn = n as int;
        let ghost by = input.scatter_by@;
        if dispatch_indirect {
            self.generate_dispatch.encode(self.group_size, n, &mut self.dispatch);
        }
        let workgroups = workgroup_count(len, GROUP_SIZE);
        proof {
            lemma_div_ceil(len as int, 256);
            lemma_div_ceil(nn, 256);
        }
        let groups = if dispatch_indirect { self.dispatch.count_x } else { workgroups };
        let threads = groups as usize * 256;
        let mut t: usize = 0;
        while t < threads
            invariant
                t <= threads,
                threads >= nn,
                nn == n,
                n <= input.data.len(),
                by == input.scatter_by@,
                input.scatter_by.len() == input.data.len(),
                output.len() == old(output).len(),
                forall|i: int| 0 <= i < nn ==> (#[trigger] by[i]).word() < output.len(),
                forall|i: int| 0 <= i < nn ==> (#[trigger] by[i]).word() < old(output).len(),
                output@ == scattered(by, input.data@, if t < nn { t as int } else { nn }, old(output)@),
            decreases threads - t,
        {
            if t < n as usize {
                let dst = input.scatter_by[t].to_word() as usize;
                output.set(dst, input.data[t]);
            }
            t = t + 1;
        }
        proof {
            lemma_scattered(by, input.data@, nn, old(output)@);
        }
    }
}

impl<V: Copy> ScatterBy<u32, V> {
    pub fn init_u32() -> (r: Self)
        ensures
            r.wf(),
    {
        Self::init_internal()
    }
}

impl<V: Copy> ScatterBy<i32, V> {
    pub fn init_i32() -> (r: Self)
        ensures
            r.wf(),
    {
        Self::init_internal()
    }
}

} // verus!
