use crate::generate_dispatch::{lemma_div_ceil, workgroup_count};
use crate::prefix_sum::{lemma_scan_tile_start, lemma_sum_split, lemma_wrap_add_wrapped, scan_tile_bounds, scan_tile_start, GLOBAL, LOCAL, EMPTY};
use crate::sum::{exclusive_scan, lemma_sum_nonneg, lemma_sum_take_next, lemma_wrap_add, sum, wrap};
use crate::word::{words, Word};
use vstd::arithmetic::div_mod::lemma_div_is_ordered;
use vstd::prelude::*;

verus! {

pub const GROUPS_SIZE: u32 = 256;
pub const VALUES_PER_THREAD: u32 = 8;
/// Elements per workgroup.
pub const SEGMENT_SIZE: u32 = 2048;

/// A workgroup's status record in the exclusive scan with three-word records: its
/// tile's aggregate, its inclusive prefix, and the status that says which is valid.
#[derive(Clone, Copy, PartialEq, Eq, Structural, Debug)]
pub struct GroupState {
    pub aggregate: u32,
    pub inclusive_prefix: u32,
    pub status: u32,
}

/// What workgroup `j` may have published.
pub open spec fn published(st: GroupState, w: Seq<u32>, n: int, j: int) -> bool {
    ||| st.status == LOCAL && st.aggregate == wrap(sum(w.subrange(scan_tile_start(j, n), scan_tile_start(j + 1, n))))
    ||| st.status == GLOBAL && st.inclusive_prefix == wrap(sum(w.take(scan_tile_start(j + 1, n))))
}

/// Every workgroup below `g` has published.
pub open spec fn published_below(states: Seq<GroupState>, w: Seq<u32>, n: int, g: int) -> bool {
    forall|j: int| 0 <= j < g ==> published(#[trigger] states[j], w, n, j)
}

/// Walks the predecessors of workgroup `g` from `g - 1` down, as the scan with
/// two-word records does, reading the field that the status announces.
pub fn look_back(states: &Vec<GroupState>, g: usize, Ghost(w): Ghost<Seq<u32>>, Ghost(n): Ghost<int>) -> (r: u32)
    requires
        0 <= n <= w.len(),
        g <= states.len(),
        published_below(states@, w, n, g as int),
    ensures
        r == wrap(sum(w.take(scan_tile_start(g as int, n)))),
{
    let mut acc: u32 = 0;
    let mut j: usize = g;
    let ghost sg = scan_tile_start(g as int, n);
    proof {
        lemma_scan_tile_start(g as int, g as int, n);
        assert(w.subrange(sg, sg) =~= Seq::<u32>::empty());
    }
    while j > 0
        invariant
            j <= g <= states.len(),
            0 <= n <= w.len(),
            published_below(states@, w, n, g as int),
            sg == scan_tile_start(g as int, n),
            acc == wrap(sum(w.subrange(scan_tile_start(j as int, n), sg))),
        decreases j,
    {
        let jj = j - 1;
        let st = states[jj];
        proof {
            assert(published(states@[jj as int], w, n, jj as int));
            lemma_scan_tile_start(jj as int, j as int, n);
            lemma_scan_tile_start(j as int, g as int, n);
            let a = scan_tile_start(jj as int, n);
            let b = scan_tile_start(j as int, n);
            lemma_sum_split(w, a, b, sg);
            lemma_sum_split(w, 0, b, sg);
            assert(w.subrange(0, sg) =~= w.take(sg));
            assert(w.subrange(0, b) =~= w.take(b));
            lemma_sum_nonneg(w.subrange(a, b));
            lemma_sum_nonneg(w.subrange(b, sg));
            lemma_sum_nonneg(w.take(b));
            lemma_wrap_add_wrapped(sum(w.subrange(a, b)), sum(w.subrange(b, sg)));
            lemma_wrap_add_wrapped(sum(w.take(b)), sum(w.subrange(b, sg)));
        }
        if st.status == GLOBAL {
            return st.inclusive_prefix.wrapping_add(acc);
        }
        acc = st.aggregate.wrapping_add(acc);
        j = jj;
    }
    proof {
        assert(w.subrange(0, sg) =~= w.take(sg));
    }
    acc
}

/// One workgroup of the exclusive scan.
pub fn run_group<T: Word>(
    data: &mut Vec<T>,
    states: &mut Vec<GroupState>,
    g: usize,
    n: usize,
    Ghost(w): Ghost<Seq<u32>>,
)
    requires
        g < 0x8_0000,
        g < old(states).len(),
        n <= old(data).len(),
        w.len() == old(data).len(),
        forall|k: int| scan_tile_start(g as int, n as int) <= k < w.len() ==> #[trigger] old(data)[k].word() == w[k],
        published_below(old(states)@, w, n as int, g as int),
    ensures
        final(data).len() == old(data).len(),
        final(states).len() == old(states).len(),
        published_below(final(states)@, w, n as int, g + 1),
        forall|k: int| 0 <= k < scan_tile_start(g as int, n as int) ==> #[trigger] final(data)[k] == old(data)[k],
        forall|k: int| scan_tile_start(g as int, n as int) <= k < scan_tile_start(g + 1, n as int)
            ==> #[trigger] final(data)[k].word() == exclusive_scan(w.take(n as int))[k],
        forall|k: int| scan_tile_start(g + 1, n as int) <= k < w.len() ==> #[trigger] final(data)[k] == old(data)[k],
{
    let ghost nn = n as int;
    let (start, end) = scan_tile_bounds(g, n);
    proof {
        lemma_scan_tile_start(g as int, g + 1, nn);
        assert(w.subrange(start as int, start as int) =~= Seq::<u32>::empty());
    }
    let mut aggregate: u32 = 0;
    let mut i: usize = start;
    while i < end
        invariant
            start <= i <= end <= n <= data.len(),
            w.len() == data.len(),
            data@ == old(data)@,
            forall|k: int| start <= k < w.len() ==> #[trigger] data[k].word() == w[k],
            aggregate == wrap(sum(w.subrange(start as int, i as int))),
        decreases end - i,
    {
        let v = data[i].to_word();
        proof {
            let s = w.subrange(start as int, i as int);
            assert(w.subrange(start as int, i + 1).drop_last() =~= s);
            lemma_sum_nonneg(s);
            lemma_wrap_add(sum(s), v);
        }
        aggregate = aggregate.wrapping_add(v);
        i = i + 1;
    }
    let ghost before = states@;
    if g == 0 {
        proof {
            assert(w.subrange(0, end as int) =~= w.take(end as int));
        }
        states.set(0, GroupState { aggregate, inclusive_prefix: aggregate, status: GLOBAL });
    } else {
        states.set(g, GroupState { aggregate, inclusive_prefix: 0, status: LOCAL });
    }
    proof {
        assert forall|j: int| 0 <= j < g implies published(#[trigger] states@[j], w, nn, j) by {
            assert(states@[j] == before[j]);
        }
    }
    let prefix: u32 = if g == 0 { 0 } else { look_back(states, g, Ghost(w), Ghost(nn)) };
    proof {
        assert(w.take(0) =~= Seq::<u32>::empty());
        lemma_sum_split(w, 0, start as int, end as int);
        lemma_sum_nonneg(w.take(start as int));
        lemma_sum_nonneg(w.subrange(start as int, end as int));
        lemma_wrap_add_wrapped(sum(w.take(start as int)), sum(w.subrange(start as int, end as int)));
    }
    if g > 0 {
        states.set(g, GroupState { aggregate, inclusive_prefix: prefix.wrapping_add(aggregate), status: GLOBAL });
    }
    proof {
        assert forall|j: int| 0 <= j < g + 1 implies published(#[trigger] states@[j], w, nn, j) by {
            if j < g {
                assert(states@[j] == before[j]);
            }
        }
    }
    let ghost mid = data@;
    let mut running: u32 = prefix;
    let mut i: usize = start;
    while i < end
        invariant
            start <= i <= end <= n <= data.len(),
            start == scan_tile_start(g as int, nn),
            end == scan_tile_start(g + 1, nn),
            nn == n,
            w.len() == data.len(),
            mid == old(data)@,
            forall|k: int| i <= k < w.len() ==> #[trigger] data[k].word() == w[k],
            forall|k: int| 0 <= k < start ==> #[trigger] data[k] == mid[k],
            forall|k: int| i <= k < w.len() ==> #[trigger] data[k] == mid[k],
            forall|k: int| start <= k < i ==> #[trigger] data[k].word() == exclusive_scan(w.take(nn))[k],
            running == wrap(sum(w.take(i as int))),
        decreases end - i,
    {
        let v = data[i].to_word();
        proof {
            lemma_sum_take_next(w, i as int);
            lemma_sum_nonneg(w.take(i as int));
            lemma_wrap_add(sum(w.take(i as int)), v);
            assert(w.take(nn).take(i as int) =~= w.take(i as int));
            assert(w.take(nn).take(i + 1) =~= w.take(i + 1));
        }
        let next = running.wrapping_add(v);
        data.set(i, T::from_word(running));
        running = next;
        i = i + 1;
    }
}

/// Exclusive scan of a whole buffer, with three-word status records.
pub struct PrefixSumExclusive<T> {
    group_state: Vec<GroupState>,
    group_counter: u32,
    marker: core::marker::PhantomData<T>,
}

impl<T: Word> PrefixSumExclusive<T> {
    fn init_internal() -> (r: Self) {
        PrefixSumExclusive {
            group_state: vec![GroupState { aggregate: 0, inclusive_prefix: 0, status: EMPTY }],
            group_counter: 0,
            marker: core::marker::PhantomData,
        }
    }

    /// Replaces each element by the wrapped sum of the elements before it.
    pub fn encode(&mut self, data: &mut Vec<T>)
        requires
            old(data).len() < 0x4000_0000,
        ensures
            final(data).len() == old(data).len(),
            words(final(data)@) == exclusive_scan(words(old(data)@)),
    {
        let ghost w = words(data@);
        let len = data.len();
        let ghost nn = len as int;
        let workgroups = workgroup_count(len as u32, SEGMENT_SIZE);
        proof {
            lemma_div_ceil(len as int, 2048);
            lemma_div_is_ordered(len + 2047, 0x4000_0000int + 2047, 2048);
        }
        if self.group_state.len() < workgroups as usize {
            self.group_state = vec![GroupState { aggregate: 0, inclusive_prefix: 0, status: EMPTY }; workgroups as usize];
        }
        self.group_counter = 0;
        let state_len = self.group_state.len();
        self.group_state = vec![GroupState { aggregate: 0, inclusive_prefix: 0, status: EMPTY }; state_len];
        let mut k: u32 = 0;
        while k < workgroups
            invariant
                k <= workgroups <= 0x8_0000,
                workgroups * 2048 >= nn,
                workgroups <= self.group_state.len(),
                nn == len,
                len == data.len(),
                len == w.len(),
                w == words(old(data)@),
                self.group_counter == k,
                published_below(self.group_state@, w, nn, k as int),
                forall|j: int| scan_tile_start(k as int, nn) <= j < len ==> #[trigger] data[j] == old(data)[j],
                forall|j: int| 0 <= j < scan_tile_start(k as int, nn) ==> #[trigger] data[j].word() == exclusive_scan(w.take(nn))[j],
            decreases workgroups - k,
        {
            let g = self.group_counter as usize;
            self.group_counter = self.group_counter + 1;
            proof {
                lemma_scan_tile_start(g as int, g + 1, nn);
            }
            run_group(data, &mut self.group_state, g, len, Ghost(w));
            k = k + 1;
        }
        proof {
            lemma_scan_tile_start(k as int, k as int, nn);
            assert(w.take(nn) =~= w);
            assert(words(data@) =~= exclusive_scan(w));
        }
    }
}

impl PrefixSumExclusive<u32> {
    pub fn init_u32() -> (r: Self) {
        Self::init_internal()
    }
}

impl PrefixSumExclusive<i32> {
    pub fn init_i32() -> (r: Self) {
        Self::init_internal()
    }
}

} // verus!
