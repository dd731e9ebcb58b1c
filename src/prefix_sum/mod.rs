use crate::count_buffer::CountBuffer;
use crate::radix_sort::live_count;
use crate::generate_dispatch::{div_ceil, lemma_div_ceil, workgroup_count, DispatchWorkgroups, GenerateDispatch};
use crate::sum::{exclusive_scan, inclusive_scan, lemma_sum_concat, lemma_sum_nonneg, lemma_sum_take_next, lemma_wrap_add, sum, wrap};
use crate::word::{words, Word};
use vstd::arithmetic::div_mod::{lemma_add_mod_noop, lemma_div_is_ordered};
use vstd::prelude::*;

pub mod exclusive;

verus! {

pub const GROUPS_SIZE: u32 = 256;
pub const VALUES_PER_THREAD: u32 = 8;
/// Elements per workgroup of a scan.
pub const SEGMENT_SIZE: u32 = 2048;

/// Status tag: nothing published yet.
pub const EMPTY: u32 = 0;
/// Status tag: the workgroup's own aggregate is published.
pub const LOCAL: u32 = 1;
/// Status tag: the inclusive prefix through the workgroup is published.
pub const GLOBAL: u32 = 2;

/// A workgroup's status record in a scan: `state_0` holds the tag, `state_1` the
/// aggregate or inclusive prefix that the tag announces.
#[derive(Clone, Copy, PartialEq, Eq, Structural, Debug)]
pub struct GroupState {
    pub state_0: u32,
    pub state_1: u32,
}

/// First element of workgroup `j`'s tile, of `n` elements.
pub open spec fn scan_tile_start(j: int, n: int) -> int {
    if j * 2048 < n {
        j * 2048
    } else {
        n
    }
}

/// What workgroup `j` may have published: its tile's aggregate, or the inclusive
/// prefix through its tile.
pub open spec fn scan_published(st: GroupState, w: Seq<u32>, n: int, j: int) -> bool {
    ||| st.state_0 == LOCAL && st.state_1 == wrap(sum(w.subrange(scan_tile_start(j, n), scan_tile_start(j + 1, n))))
    ||| st.state_0 == GLOBAL && st.state_1 == wrap(sum(w.take(scan_tile_start(j + 1, n))))
}

/// Every workgroup below `g` has published.
pub open spec fn scan_published_below(states: Seq<GroupState>, w: Seq<u32>, n: int, g: int) -> bool {
    forall|j: int| 0 <= j < g ==> scan_published(#[trigger] states[j], w, n, j)
}

/// The result of a scan of the words `w`, inclusive or exclusive.
pub open spec fn scan_of(inclusive: bool, w: Seq<u32>) -> Seq<u32> {
    if inclusive {
        inclusive_scan(w)
    } else {
        exclusive_scan(w)
    }
}

pub proof fn lemma_scan_tile_start(j1: int, j2: int, n: int)
    requires
        0 <= j1 <= j2,
        0 <= n,
    ensures
        0 <= scan_tile_start(j1, n) <= scan_tile_start(j2, n) <= n,
        scan_tile_start(j1 + 1, n) - scan_tile_start(j1, n) <= 2048,
        scan_tile_start(0, n) == 0,
{
    assert(j1 * 2048 <= j2 * 2048) by (nonlinear_arith)
        requires
            j1 <= j2,
    ;
    assert(0 <= j1 * 2048) by (nonlinear_arith)
        requires
            0 <= j1,
    ;
    assert((j1 + 1) * 2048 == j1 * 2048 + 2048) by (nonlinear_arith);
}

/// Adding two wrapped sums wraps the total.
pub proof fn lemma_wrap_add_wrapped(x: int, y: int)
    requires
        0 <= x,
        0 <= y,
    ensures
        vstd::wrapping::u32_specs::wrapping_add(wrap(x), wrap(y)) == wrap(x + y),
{
    lemma_wrap_add(x, wrap(y));
    lemma_add_mod_noop(x, y, 0x1_0000_0000);
    lemma_add_mod_noop(x, wrap(y) as int, 0x1_0000_0000);
    vstd::arithmetic::div_mod::lemma_mod_twice(y, 0x1_0000_0000);
}

/// The sum up to `c` is the sum up to `a` and the sum from `a` to `c`.
pub proof fn lemma_sum_split(w: Seq<u32>, a: int, b: int, c: int)
    requires
        0 <= a <= b <= c <= w.len(),
    ensures
        sum(w.subrange(a, c)) == sum(w.subrange(a, b)) + sum(w.subrange(b, c)),
        sum(w.take(c)) == sum(w.take(a)) + sum(w.subrange(a, c)),
{
    assert(w.subrange(a, c) =~= w.subrange(a, b) + w.subrange(b, c));
    lemma_sum_concat(w.subrange(a, b), w.subrange(b, c));
    assert(w.take(c) =~= w.take(a) + w.subrange(a, c));
    lemma_sum_concat(w.take(a), w.subrange(a, c));
}

/// Walks the predecessors of workgroup `g` from `g - 1` down: a published aggregate
/// is added and the walk goes on; a published inclusive prefix is added and the
/// walk stops. The result is the sum of all elements before `g`'s tile.
pub fn scan_look_back(states: &Vec<GroupState>, g: usize, Ghost(w): Ghost<Seq<u32>>, Ghost(n): Ghost<int>) -> (r: u32)
    requires
        0 <= n <= w.len(),
        g <= states.len(),
        scan_published_below(states@, w, n, g as int),
    ensures
        r == wrap(sum(w.take(scan_tile_start(g as int, n)))),
{
    let mut acc: u32 = 0;
    let mut j: usize = g;
    let ghost sg = scan_tile_start(g as int, n);
    proof {
        lemma_scan_tile_start(g as int, g as int, n);
        assert(w.subrange(sg, sg) =~= Seq::<u32>::empty());
    }
    while j > 0
        invariant
            j <= g <= states.len(),
            0 <= n <= w.len(),
            scan_published_below(states@, w, n, g as int),
            sg == scan_tile_start(g as int, n),
            acc == wrap(sum(w.subrange(scan_tile_start(j as int, n), sg))),
        decreases j,
    {
        let jj = j - 1;
        let st = states[jj];
        proof {
            assert(scan_published(states@[jj as int], w, n, jj as int));
            lemma_scan_tile_start(jj as int, j as int, n);
            lemma_scan_tile_start(j as int, g as int, n);
            let a = scan_tile_start(jj as int, n);
            let b = scan_tile_start(j as int, n);
            lemma_sum_split(w, a, b, sg);
            lemma_sum_split(w, 0, b, sg);
            assert(w.subrange(0, sg) =~= w.take(sg));
            assert(w.subrange(0, b) =~= w.take(b));
            lemma_sum_nonneg(w.subrange(a, b));
            lemma_sum_nonneg(w.subrange(b, sg));
            lemma_sum_nonneg(w.take(b));
            lemma_wrap_add_wrapped(sum(w.subrange(a, b)), sum(w.subrange(b, sg)));
            lemma_wrap_add_wrapped(sum(w.take(b)), sum(w.subrange(b, sg)));
        }
        if st.state_0 == GLOBAL {
            return st.state_1.wrapping_add(acc);
        }
        acc = st.state_1.wrapping_add(acc);
        j = jj;
    }
    proof {
        assert(w.subrange(0, sg) =~= w.take(sg));
    }
    acc
}

/// The tile bounds of scan workgroup `g`.
pub fn scan_tile_bounds(g: usize, n: usize) -> (r: (usize, usize))
    requires
        g < 0x8_0000,
    ensures
        r.0 == scan_tile_start(g as int, n as int),
        r.1 == scan_tile_start(g + 1, n as int),
{
    let start = if g * 2048 < n { g * 2048 } else { n };
    let end = if (g + 1) * 2048 < n { (g + 1) * 2048 } else { n };
    (start, end)
}

/// One scan workgroup: reduce the tile, publish, look back, publish the inclusive
/// prefix, then write the tile's scanned values.
pub fn run_scan_group<T: Word>(
    data: &mut Vec<T>,
    states: &mut Vec<GroupState>,
    g: usize,
    n: usize,
    inclusive: bool,
    Ghost(w): Ghost<Seq<u32>>,
)
    requires
        g < 0x8_0000,
        g < old(states).len(),
        n <= old(data).len(),
        w.len() == old(data).len(),
        forall|k: int| scan_tile_start(g as int, n as int) <= k < w.len() ==> #[trigger] old(data)[k].word() == w[k],
        scan_published_below(old(states)@, w, n as int, g as int),
    ensures
        final(data).len() == old(data).len(),
        final(states).len() == old(states).len(),
        scan_published_below(final(states)@, w, n as int, g + 1),
        forall|k: int| 0 <= k < scan_tile_start(g as int, n as int) ==> #[trigger] final(data)[k] == old(data)[k],
        forall|k: int| scan_tile_start(g as int, n as int) <= k < scan_tile_start(g + 1, n as int)
            ==> #[trigger] final(data)[k].word() == scan_of(inclusive, w.take(n as int))[k],
        forall|k: int| scan_tile_start(g + 1, n as int) <= k < w.len() ==> #[trigger] final(data)[k] == old(data)[k],
{
    let ghost nn = n as int;
    let (start, end) = scan_tile_bounds(g, n);
    proof {
        lemma_scan_tile_start(g as int, g + 1, nn);
        assert(w.subrange(start as int, start as int) =~= Seq::<u32>::empty());
    }
    let mut aggregate: u32 = 0;
    let mut i: usize = start;
    while i < end
        invariant
            start <= i <= end <= n <= data.len(),
            w.len() == data.len(),
            data@ == old(data)@,
            forall|k: int| start <= k < w.len() ==> #[trigger] data[k].word() == w[k],
            aggregate == wrap(sum(w.subrange(start as int, i as int))),
        decreases end - i,
    {
        let v = data[i].to_word();
        proof {
            let s = w.subrange(start as int, i as int);
            assert(w.subrange(start as int, i + 1).drop_last() =~= s);
            lemma_sum_nonneg(s);
            lemma_wrap_add(sum(s), v);
        }
        aggregate = aggregate.wrapping_add(v);
        i = i + 1;
    }
    let ghost before = states@;
    if g == 0 {
        proof {
            assert(w.subrange(0, end as int) =~= w.take(end as int));
        }
        states.set(0, GroupState { state_0: GLOBAL, state_1: aggregate });
    } else {
        states.set(g, GroupState { state_0: LOCAL, state_1: aggregate });
    }
    proof {
        assert forall|j: int| 0 <= j < g implies scan_published(#[trigger] states@[j], w, nn, j) by {
            assert(states@[j] == before[j]);
        }
    }
    let prefix: u32 = if g == 0 { 0 } else { scan_look_back(states, g, Ghost(w), Ghost(nn)) };
    proof {
        assert(w.take(0) =~= Seq::<u32>::empty());
        lemma_sum_split(w, 0, start as int, end as int);
        lemma_sum_nonneg(w.take(start as int));
        lemma_sum_nonneg(w.subrange(start as int, end as int));
        lemma_wrap_add_wrapped(sum(w.take(start as int)), sum(w.subrange(start as int, end as int)));
    }
    if g > 0 {
        states.set(g, GroupState { state_0: GLOBAL, state_1: prefix.wrapping_add(aggregate) });
    }
    proof {
        assert forall|j: int| 0 <= j < g + 1 implies scan_published(#[trigger] states@[j], w, nn, j) by {
            if j < g {
                assert(states@[j] == before[j]);
            }
        }
    }
    let ghost mid = data@;
    let mut running: u32 = prefix;
    let mut i: usize = start;
    while i < end
        invariant
            start <= i <= end <= n <= data.len(),
            start == scan_tile_start(g as int, nn),
            end == scan_tile_start(g + 1, nn),
            nn == n,
            w.len() == data.len(),
            mid == old(data)@,
            forall|k: int| i <= k < w.len() ==> #[trigger] data[k].word() == w[k],
            forall|k: int| 0 <= k < start ==> #[trigger] data[k] == mid[k],
            forall|k: int| i <= k < w.len() ==> #[trigger] data[k] == mid[k],
            forall|k: int| start <= k < i ==> #[trigger] data[k].word() == scan_of(inclusive, w.take(nn))[k],
            running == wrap(sum(w.take(i as int))),
        decreases end - i,
    {
        let v = data[i].to_word();
        proof {
            lemma_sum_take_next(w, i as int);
            lemma_sum_nonneg(w.take(i as int));
            lemma_wrap_add(sum(w.take(i as int)), v);
            assert(w.take(nn).take(i as int) =~= w.take(i as int));
            assert(w.take(nn).take(i + 1) =~= w.take(i + 1));
        }
        let next = running.wrapping_add(v);
        if inclusive {
            data.set(i, T::from_word(next));
        } else {
            data.set(i, T::from_word(running));
        }
        running = next;
        i = i + 1;
    }
}

/// Scanning the first `n` elements of a buffer through a count gives the same
/// elements as scanning a buffer of just those `n` elements without one.
pub proof fn lemma_scan_count_equivalence<T: Word>(inclusive: bool, data: Seq<T>, n: u32, with_count: Seq<T>, truncated: Seq<T>)
    requires
        n <= data.len(),
        with_count.len() == data.len(),
        truncated.len() == n,
        words(with_count.take(live_count(Some(n), data.len() as int)))
            == scan_of(inclusive, words(data.take(live_count(Some(n), data.len() as int)))),
        words(truncated.take(live_count(None, n as int)))
            == scan_of(inclusive, words(data.take(n as int).take(live_count(None, n as int)))),
    ensures
        with_count.take(n as int) == truncated,
{
    let a = with_count.take(n as int);
    assert(truncated.take(n as int) =~= truncated);
    assert(data.take(n as int).take(n as int) =~= data.take(n as int));
    assert forall|k: int| 0 <= k < n implies #[trigger] a[k] == truncated[k] by {
        assert(words(a)[k] == words(truncated)[k]);
        T::lemma_word_injective(a[k], truncated[k]);
    }
    assert(a =~= truncated);
}

/// The data of a scan, and the number of leading elements to scan where it is not all.
pub struct PrefixSumInput<T> {
    pub data: Vec<T>,
    pub count: Option<u32>,
}

/// Single-pass scan with decoupled look-back: each workgroup acquires an ordered ID,
/// reduces its tile, publishes the aggregate, looks back over its predecessors'
/// records for its exclusive prefix, publishes its inclusive prefix, and writes its
/// tile.
pub struct PrefixSum<T> {
    inclusive: bool,
    group_state: Vec<GroupState>,
    group_counter: u32,
    generate_dispatch: GenerateDispatch,
    group_size: u32,
    dispatch: DispatchWorkgroups,
    marker: core::marker::PhantomData<T>,
}

impl<T: Word> PrefixSum<T> {
    /// Whether this scan is inclusive.
    pub closed spec fn is_inclusive(&self) -> bool {
        self.inclusive
    }

    /// How many workgroup status records are held: it grows to the largest number of
    /// workgroups launched and never shrinks.
    pub closed spec fn capacity(&self) -> nat {
        self.group_state@.len()
    }

    pub closed spec fn wf(&self) -> bool {
        self.group_size == SEGMENT_SIZE
    }

    fn init_internal(inclusive: bool) -> (r: Self)
        ensures
            r.wf(),
            r.is_inclusive() == inclusive,
            r.capacity() == 1,
    {
        PrefixSum {
            inclusive,
            group_state: vec![GroupState { state_0: EMPTY, state_1: 0 }],
            group_counter: 0,
            generate_dispatch: GenerateDispatch::init(),
            group_size: SEGMENT_SIZE,
            dispatch: DispatchWorkgroups { count_x: 1, count_y: 1, count_z: 1 },
            marker: core::marker::PhantomData,
        }
    }

    /// Replaces each of the first `count` elements (all elements when there is no
    /// count) by the wrapped sum of the elements up to it: through it for an inclusive
    /// scan, before it for an exclusive one. Elements from `count` on are left as they
    /// were.
    pub fn encode(&mut self, input: &mut PrefixSumInput<T>)
        requires
            old(self).wf(),
            old(input).data.len() < 0x4000_0000,
            old(input).count matches Some(c) ==> c <= old(input).data.len(),
        ensures
            final(self).wf(),
            final(self).is_inclusive() == old(self).is_inclusive(),
            final(self).capacity() == if old(self).capacity() < div_ceil(old(input).data.len() as int, 2048) {
                div_ceil(old(input).data.len() as int, 2048) as nat
            } else {
                old(self).capacity()
            },
            final(input).count == old(input).count,
            final(input).data.len() == old(input).data.len(),
            words(final(input).data@.take(live_count(old(input).count, old(input).data.len() as int)))
                == scan_of(old(self).is_inclusive(), words(old(input).data@.take(live_count(old(input).count, old(input).data.len() as int)))),
            final(input).data@.skip(live_count(old(input).count, old(input).data.len() as int))
                == old(input).data@.skip(live_count(old(input).count, old(input).data.len() as int)),
    {
        self.scan(&mut input.data, input.count);
    }

    /// Scans `data` in place as `encode` does, the count given apart.
    pub fn scan(&mut self, data: &mut Vec<T>, count: Option<u32>)
        requires
            old(self).wf(),
            old(data).len() < 0x4000_0000,
            count matches Some(c) ==> c <= old(data).len(),
        ensures
            final(self).wf(),
            final(self).is_inclusive() == old(self).is_inclusive(),
            final(self).capacity() == if old(self).capacity() < div_ceil(old(data).len() as int, 2048) {
                div_ceil(old(data).len() as int, 2048) as nat
            } else {
                old(self).capacity()
            },
            final(data).len() == old(data).len(),
            words(final(data)@.take(live_count(count, old(data).len() as int)))
                == scan_of(old(self).is_inclusive(), words(old(data)@.take(live_count(count, old(data).len() as int)))),
            final(data)@.skip(live_count(count, old(data).len() as int))
                == old(data)@.skip(live_count(count, old(data).len() as int)),
    {
        let ghost w = words(data@);
        let len = data.len();
        let dispatch_indirect = count.is_some();
        let count = CountBuffer::new(count, len as u32);
        let n = count.uniform();
        let ghost nn = n as int;
        let workgroups = workgroup_count(len as u32, SEGMENT_SIZE);
        proof {
            lemma_div_ceil(len as int, 2048);
            lemma_div_ceil(nn, 2048);
            lemma_div_is_ordered(nn + 2047, len + 2047, 2048);
            lemma_div_is_ordered(len + 2047, 0x4000_0000int + 2047, 2048);
        }
        if self.group_state.len() < workgroups as usize {
            self.group_state = vec![GroupState { state_0: EMPTY, state_1: 0 }; workgroups as usize];
        }
        if dispatch_indirect {
            self.generate_dispatch.encode(self.group_size, n, &mut self.dispatch);
        }
        self.group_counter = 0;
        let state_len = self.group_state.len();
        self.group_state = vec![GroupState { state_0: EMPTY, state_1: 0 }; state_len];
        let groups = if dispatch_indirect { self.dispatch.count_x } else { workgroups };
        let mut k: u32 = 0;
        while k < groups
            invariant
                k <= groups <= workgroups <= 0x8_0000,
                groups * 2048 >= nn,
                workgroups <= self.group_state.len(),
                self.group_state.len() == if old(self).group_state.len() < workgroups { workgroups as int } else { old(self).group_state.len() as int },
                nn == n,
                n <= len,
                len == data.len(),
                len == w.len(),
                w == words(old(data)@),
                self.group_counter == k,
                self.wf(),
                self.inclusive == old(self).inclusive,
                                scan_published_below(self.group_state@, w, nn, k as int),
                forall|j: int| scan_tile_start(k as int, nn) <= j < len ==> #[trigger] data[j] == old(data)[j],
                forall|j: int| 0 <= j < scan_tile_start(k as int, nn) ==> #[trigger] data[j].word() == scan_of(self.inclusive, w.take(nn))[j],
            decreases groups - k,
        {
            let g = self.group_counter as usize;
            self.group_counter = self.group_counter + 1;
            proof {
                lemma_scan_tile_start(g as int, g + 1, nn);
            }
            run_scan_group(data, &mut self.group_state, g, n as usize, self.inclusive, Ghost(w));
            k = k + 1;
        }
        proof {
            lemma_scan_tile_start(k as int, k as int, nn);
            assert(w.take(nn) =~= words(old(data)@.take(nn)));
            assert(words(data@.take(nn)) =~= scan_of(self.inclusive, w.take(nn)));
            assert(data@.skip(nn) =~= old(data)@.skip(nn));
        }
    }
}

impl PrefixSum<u32> {
    pub fn init_exclusive_u32() -> (r: Self)
        ensures
            r.wf(),
            !r.is_inclusive(),
    {
        Self::init_internal(false)
    }

    pub fn init_inclusive_u32() -> (r: Self)
        ensures
            r.wf(),
            r.is_inclusive(),
    {
        Self::init_internal(true)
    }
}

impl PrefixSum<i32> {
    pub fn init_exclusive_i32() -> (r: Self)
        ensures
            r.wf(),
            !r.is_inclusive(),
    {
        Self::init_internal(false)
    }

    pub fn init_inclusive_i32() -> (r: Self)
        ensures
            r.wf(),
            r.is_inclusive(),
    {
        Self::init_internal(true)
    }
}

} // verus!
