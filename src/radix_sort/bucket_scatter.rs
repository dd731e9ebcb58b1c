use crate::generate_dispatch::{div_ceil, lemma_div_ceil, workgroup_count, DispatchWorkgroups};
use crate::permutation::is_permutation;
use vstd::arithmetic::div_mod::lemma_div_is_ordered;
use crate::radix_sort::digits::{
    digit_count, digit_offset, lemma_destination_bound, lemma_destinations_permute, lemma_digit_bound,
    lemma_digit_count_bounds, radix_digit, scatter_destination,
};
use crate::radix_sort::{RADIX_DIGITS, RADIX_SIZE};
use vstd::prelude::*;

verus! {

pub const GROUP_SIZE: u32 = 256;
pub const VALUES_PER_THREAD: u32 = 4;
/// Elements per workgroup of a scatter pass.
pub const BUCKET_SCATTER_SEGMENT_SIZE: u32 = 1024;

/// Largest value a packed status word can hold: the low 30 bits.
pub const VALUE_MASK: u32 = 0x3FFF_FFFF;

/// Where a workgroup stands in the look-back of one digit.
#[derive(Clone, Copy, PartialEq, Eq, Structural, Debug)]
pub enum GroupStatus {
    /// Nothing published yet.
    NotReady,
    /// The workgroup's own count of the digit is published.
    LocalOffset,
    /// The count of the digit over this and all lower workgroups is published.
    GlobalOffset,
}

impl GroupStatus {
    /// The code of the status in the top two bits of a packed word.
    pub open spec fn code(self) -> u32 {
        match self {
            GroupStatus::NotReady => 0,
            GroupStatus::LocalOffset => 1,
            GroupStatus::GlobalOffset => 2,
        }
    }
}

/// A packed status word: status in the top 2 bits, count or offset in the low 30.
#[derive(Clone, Copy, PartialEq, Eq, Structural, Debug)]
pub struct GroupState {
    pub packed_data: u32,
}

impl GroupState {
    pub open spec fn spec_status(self) -> u32 {
        self.packed_data >> 30u32
    }

    pub open spec fn spec_value(self) -> u32 {
        self.packed_data & 0x3FFF_FFFFu32
    }

    /// The cleared word: not ready, value 0.
    pub fn zeroed() -> (r: Self)
        ensures
            r.spec_status() == GroupStatus::NotReady.code(),
            r.spec_value() == 0,
    {
        assert((0u32 >> 30u32) == 0 && (0u32 & 0x3FFF_FFFFu32) == 0) by (bit_vector);
        GroupState { packed_data: 0 }
    }

    /// Packs a status and a value below 2^30.
    pub fn new(status: GroupStatus, value: u32) -> (r: Self)
        requires
            value <= VALUE_MASK,
        ensures
            r.spec_status() == status.code(),
            r.spec_value() == value,
    {
        let s: u32 = match status {
            GroupStatus::NotReady => 0,
            GroupStatus::LocalOffset => 1,
            GroupStatus::GlobalOffset => 2,
        };
        assert((((s << 30u32) | value) >> 30u32) == s && (((s << 30u32) | value) & 0x3FFF_FFFFu32) == value)
            by (bit_vector)
            requires
                s < 4,
                value <= 0x3FFF_FFFFu32,
        ;
        GroupState { packed_data: (s << 30u32) | value }
    }

    /// The status code, from the top 2 bits.
    pub fn status(&self) -> (r: u32)
        ensures
            r == self.spec_status(),
            r < 4,
    {
        let w = self.packed_data;
        assert(w >> 30u32 < 4) by (bit_vector);
        w >> 30u32
    }

    /// The count or offset, from the low 30 bits.
    pub fn value(&self) -> (r: u32)
        ensures
            r == self.spec_value(),
            r <= VALUE_MASK,
    {
        let w = self.packed_data;
        assert(w & 0x3FFF_FFFFu32 <= 0x3FFF_FFFFu32) by (bit_vector);
        w & 0x3FFF_FFFFu32
    }

    /// The status as a variant, where the top bits hold one.
    pub fn group_status(&self) -> (r: Option<GroupStatus>)
        ensures
            r matches Some(s) ==> s.code() == self.spec_status(),
            r is None <==> self.spec_status() == 3,
    {
        let s = self.status();
        if s == 0 {
            Some(GroupStatus::NotReady)
        } else if s == 1 {
            Some(GroupStatus::LocalOffset)
        } else if s == 2 {
            Some(GroupStatus::GlobalOffset)
        } else {
            None
        }
    }
}

/// The per-pass parameters of a scatter kernel.
#[derive(Clone, Copy, PartialEq, Eq, Structural, Debug)]
pub struct Uniforms {
    pub radix_offset: u32,
    pub radix_group: u32,
}

/// First element of workgroup `j`'s tile, of `n` elements.
pub open spec fn tile_start(j: int, n: int) -> int {
    if j * 1024 < n {
        j * 1024
    } else {
        n
    }
}

/// Index of the status word of workgroup `j` for digit `d`.
pub open spec fn slot(j: int, d: int) -> int {
    j * 256 + d
}

/// What workgroup `j` may have published for digit `d`: its own count, or the count
/// over itself and all lower workgroups.
pub open spec fn published(st: GroupState, keys: Seq<u32>, p: int, n: int, j: int, d: int) -> bool {
    ||| st.spec_status() == GroupStatus::LocalOffset.code() && st.spec_value() == digit_count(keys, p, d, tile_start(j + 1, n)) - digit_count(keys, p, d, tile_start(j, n))
    ||| st.spec_status() == GroupStatus::GlobalOffset.code() && st.spec_value() == digit_count(keys, p, d, tile_start(j + 1, n))
}

/// Every workgroup below `g` has published each digit.
pub open spec fn published_below(states: Seq<GroupState>, keys: Seq<u32>, p: int, n: int, g: int) -> bool {
    forall|j: int, d: int| 0 <= j < g && 0 <= d < 256 ==> published(#[trigger] states[slot(j, d)], keys, p, n, j, d)
}

pub proof fn lemma_tile_start_mono(j1: int, j2: int, n: int)
    requires
        0 <= j1 <= j2,
        0 <= n,
    ensures
        0 <= tile_start(j1, n) <= tile_start(j2, n) <= n,
        tile_start(j1 + 1, n) - tile_start(j1, n) <= 1024,
{
    assert(j1 * 1024 <= j2 * 1024) by (nonlinear_arith)
        requires
            j1 <= j2,
    ;
    assert(0 <= j1 * 1024) by (nonlinear_arith)
        requires
            0 <= j1,
    ;
    assert((j1 + 1) * 1024 == j1 * 1024 + 1024) by (nonlinear_arith);
}

pub proof fn lemma_slot(j1: int, d1: int, j2: int, d2: int, groups: int)
    requires
        0 <= j1 < groups,
        0 <= j2,
        0 <= d1 < 256,
        0 <= d2 < 256,
    ensures
        0 <= slot(j1, d1) < groups * 256,
        (j1 != j2 || d1 != d2) ==> slot(j1, d1) != slot(j2, d2),
        slot(j1, d1) < slot(j1 + 1, 0),
{
    assert(0 <= slot(j1, d1) < groups * 256) by (nonlinear_arith)
        requires
            0 <= j1 < groups,
            0 <= d1 < 256,
    ;
    if j1 < j2 {
        assert(slot(j1, d1) < slot(j2, d2)) by (nonlinear_arith)
            requires
                j1 < j2,
                0 <= d1 < 256,
                0 <= d2 < 256,
        ;
    } else if j2 < j1 {
        assert(slot(j2, d2) < slot(j1, d1)) by (nonlinear_arith)
            requires
                j2 < j1,
                0 <= d1 < 256,
                0 <= d2 < 256,
        ;
    }
}

/// Reads digit `p` of a key, where `radix_offset` is `8 * p`.
pub fn key_digit(key: u32, radix_offset: u32, Ghost(p): Ghost<int>) -> (r: usize)
    requires
        0 <= p < 4,
        radix_offset == 8 * p,
    ensures
        r == radix_digit(key, p),
        r < 256,
{
    proof {
        lemma_digit_bound(key, p);
    }
    ((key >> radix_offset) & 0xff) as usize
}

/// Counts each digit in `keys[start..end]`, and gives each key the number of keys
/// with its digit before it in that range.
pub fn rank_tile(keys: &Vec<u32>, start: usize, end: usize, radix_offset: u32, Ghost(p): Ghost<int>) -> (r: (Vec<u32>, Vec<u32>))
    requires
        start <= end <= keys.len(),
        end - start <= 1024,
        0 <= p < 4,
        radix_offset == 8 * p,
    ensures
        r.0.len() == 256,
        forall|d: int| 0 <= d < 256 ==> #[trigger] r.0[d] == digit_count(keys@, p, d, end as int) - digit_count(keys@, p, d, start as int),
        r.1.len() == end - start,
        forall|i: int| start <= i < end ==> #[trigger] r.1[i - start] == digit_count(keys@, p, radix_digit(keys@[i], p), i) - digit_count(keys@, p, radix_digit(keys@[i], p), start as int),
{
    let mut counts: Vec<u32> = Vec::new();
    let mut d: usize = 0;
    while d < RADIX_DIGITS
        invariant
            d <= 256,
            counts.len() == d,
            forall|e: int| 0 <= e < d ==> counts[e] == 0,
        decreases 256 - d,
    {
        counts.push(0);
        d = d + 1;
    }
    let mut offsets: Vec<u32> = Vec::new();
    let mut i: usize = start;
    while i < end
        invariant
            start <= i <= end <= keys.len(),
            end - start <= 1024,
            0 <= p < 4,
            radix_offset == 8 * p,
            counts.len() == 256,
            forall|e: int| 0 <= e < 256 ==> #[trigger] counts[e] == digit_count(keys@, p, e, i as int) - digit_count(keys@, p, e, start as int),
            offsets.len() == i - start,
            forall|k: int| start <= k < i ==> #[trigger] offsets[k - start] == digit_count(keys@, p, radix_digit(keys@[k], p), k) - digit_count(keys@, p, radix_digit(keys@[k], p), start as int),
        decreases end - i,
    {
        let dk = key_digit(keys[i], radix_offset, Ghost(p));
        proof {
            lemma_digit_count_bounds(keys@, p, dk as int, start as int, i as int);
        }
        let c = counts[dk];
        offsets.push(c);
        counts.set(dk, c + 1);
        i = i + 1;
        assert forall|e: int| 0 <= e < 256 implies #[trigger] counts[e] == digit_count(keys@, p, e, i as int) - digit_count(keys@, p, e, start as int) by {
            lemma_digit_count_bounds(keys@, p, e, start as int, i - 1);
        }
        assert forall|k: int| start <= k < i implies #[trigger] offsets[k - start] == digit_count(keys@, p, radix_digit(keys@[k], p), k) - digit_count(keys@, p, radix_digit(keys@[k], p), start as int) by {
            if k == i - 1 {
                assert(offsets[k - start] == c);
            }
        }
    }
    (counts, offsets)
}

/// Walks the predecessors of workgroup `g` from `g - 1` down, adding what each has
/// published for digit `d`, and stops at the first that has published a global
/// offset: the count of digit `d` before workgroup `g`'s tile.
pub fn look_back(states: &Vec<GroupState>, g: usize, d: usize, Ghost(keys): Ghost<Seq<u32>>, Ghost(p): Ghost<int>, Ghost(n): Ghost<int>) -> (r: u32)
    requires
        0 <= n <= keys.len(),
        n <= VALUE_MASK,
        d < 256,
        (g as int) * 256 <= states.len(),
        published_below(states@, keys, p, n, g as int),
    ensures
        r == digit_count(keys, p, d as int, tile_start(g as int, n)),
{
    let mut sum: u32 = 0;
    let mut j: usize = g;
    let ghost start_g = tile_start(g as int, n);
    proof {
        lemma_tile_start_mono(0, g as int, n);
        lemma_digit_count_bounds(keys, p, d as int, 0, start_g);
    }
    while j > 0
        invariant
            j <= g,
            0 <= n <= keys.len(),
            n <= VALUE_MASK,
            d < 256,
            (g as int) * 256 <= states.len(),
            published_below(states@, keys, p, n, g as int),
            start_g == tile_start(g as int, n),
            sum == digit_count(keys, p, d as int, start_g) - digit_count(keys, p, d as int, tile_start(j as int, n)),
        decreases j,
    {
        let jj = j - 1;
        proof {
            lemma_slot(jj as int, d as int, jj as int, d as int, g as int);
            lemma_tile_start_mono(jj as int, g as int, n);
            lemma_tile_start_mono(j as int, g as int, n);
            lemma_digit_count_bounds(keys, p, d as int, tile_start(jj as int, n), tile_start(j as int, n));
            lemma_digit_count_bounds(keys, p, d as int, tile_start(j as int, n), start_g);
            lemma_digit_count_bounds(keys, p, d as int, 0, tile_start(j as int, n));
            lemma_digit_count_bounds(keys, p, d as int, 0, start_g);
            assert(published(states@[slot(jj as int, d as int)], keys, p, n, jj as int, d as int));
        }
        let st = states[jj * 256 + d];
        let v = st.value();
        if st.status() == 2 {
            sum = sum + v;
            return sum;
        }
        sum = sum + v;
        j = jj;
    }
    sum
}

/// Publishes workgroup `g`'s own count of each digit, then resolves and publishes
/// the global offset of each digit by looking back. Returns, per digit, the count
/// of that digit before `g`'s tile.
pub fn resolve_group_offsets(
    states: &mut Vec<GroupState>,
    g: usize,
    local_counts: &Vec<u32>,
    Ghost(keys): Ghost<Seq<u32>>,
    Ghost(p): Ghost<int>,
    Ghost(n): Ghost<int>,
) -> (bases: Vec<u32>)
    requires
        0 <= n <= keys.len(),
        n <= VALUE_MASK,
        (g as int + 1) * 256 <= old(states).len(),
        published_below(old(states)@, keys, p, n, g as int),
        local_counts.len() == 256,
        forall|d: int| 0 <= d < 256 ==> #[trigger] local_counts[d] == digit_count(keys, p, d, tile_start(g + 1, n)) - digit_count(keys, p, d, tile_start(g as int, n)),
    ensures
        final(states).len() == old(states).len(),
        published_below(final(states)@, keys, p, n, g + 1),
        bases.len() == 256,
        forall|d: int| 0 <= d < 256 ==> #[trigger] bases[d] == digit_count(keys, p, d, tile_start(g as int, n)),
{
    proof {
        lemma_tile_start_mono(g as int, g + 1, n);
        lemma_tile_start_mono(0, g as int, n);
    }
    let ghost groups = (g + 1) as int;
    let mut d: usize = 0;
    while d < RADIX_DIGITS
        invariant
            d <= 256,
            0 <= n <= keys.len(),
            n <= VALUE_MASK,
            groups == g + 1,
            (g as int + 1) * 256 <= states.len(),
            states.len() == old(states).len(),
            published_below(states@, keys, p, n, g as int),
            local_counts.len() == 256,
            forall|e: int| 0 <= e < 256 ==> #[trigger] local_counts[e] == digit_count(keys, p, e, tile_start(g + 1, n)) - digit_count(keys, p, e, tile_start(g as int, n)),
            forall|e: int| 0 <= e < d ==> published(#[trigger] states@[slot(g as int, e)], keys, p, n, g as int, e),
        decreases 256 - d,
    {
        proof {
            lemma_slot(g as int, d as int, g as int, d as int, groups);
            lemma_digit_count_bounds(keys, p, d as int, tile_start(g as int, n), tile_start(g + 1, n));
        }
        let ghost before = states@;
        states.set(g * 256 + d, GroupState::new(GroupStatus::LocalOffset, local_counts[d]));
        proof {
            assert forall|j: int, e: int| 0 <= j < g && 0 <= e < 256 implies published(#[trigger] states@[slot(j, e)], keys, p, n, j, e) by {
                lemma_slot(j, e, g as int, d as int, groups);
                assert(before[slot(j, e)] == states@[slot(j, e)]);
            }
            assert forall|e: int| 0 <= e < d + 1 implies published(#[trigger] states@[slot(g as int, e)], keys, p, n, g as int, e) by {
                lemma_slot(g as int, e, g as int, d as int, groups);
            }
        }
        d = d + 1;
    }
    let mut bases: Vec<u32> = Vec::new();
    let mut d: usize = 0;
    while d < RADIX_DIGITS
        invariant
            d <= 256,
            0 <= n <= keys.len(),
            n <= VALUE_MASK,
            groups == g + 1,
            (g as int + 1) * 256 <= states.len(),
            states.len() == old(states).len(),
            published_below(states@, keys, p, n, g as int),
            local_counts.len() == 256,
            forall|e: int| 0 <= e < 256 ==> #[trigger] local_counts[e] == digit_count(keys, p, e, tile_start(g + 1, n)) - digit_count(keys, p, e, tile_start(g as int, n)),
            forall|e: int| 0 <= e < 256 ==> published(#[trigger] states@[slot(g as int, e)], keys, p, n, g as int, e),
            bases.len() == d,
            forall|e: int| 0 <= e < d ==> #[trigger] bases[e] == digit_count(keys, p, e, tile_start(g as int, n)),
        decreases 256 - d,
    {
        proof {
            lemma_slot(g as int, d as int, g as int, d as int, groups);
            lemma_digit_count_bounds(keys, p, d as int, tile_start(g as int, n), tile_start(g + 1, n));
            lemma_digit_count_bounds(keys, p, d as int, 0, tile_start(g + 1, n));
        }
        let b = look_back(states, g, d, Ghost(keys), Ghost(p), Ghost(n));
        bases.push(b);
        let ghost before = states@;
        states.set(g * 256 + d, GroupState::new(GroupStatus::GlobalOffset, b + local_counts[d]));
        proof {
            assert forall|j: int, e: int| 0 <= j < g && 0 <= e < 256 implies published(#[trigger] states@[slot(j, e)], keys, p, n, j, e) by {
                lemma_slot(j, e, g as int, d as int, groups);
                assert(before[slot(j, e)] == states@[slot(j, e)]);
            }
            assert forall|e: int| 0 <= e < 256 implies published(#[trigger] states@[slot(g as int, e)], keys, p, n, g as int, e) by {
                lemma_slot(g as int, e, g as int, d as int, groups);
            }
        }
        d = d + 1;
    }
    proof {
        assert forall|j: int, e: int| 0 <= j < g + 1 && 0 <= e < 256 implies published(#[trigger] states@[slot(j, e)], keys, p, n, j, e) by {
            if j < g {
            } else {
            }
        }
    }
    bases
}

/// The status words cleared for a new pass, grown to at least `needed` words.
pub fn cleared_states(states: &Vec<GroupState>, needed: usize) -> (r: Vec<GroupState>)
    ensures
        r.len() == if states.len() < needed { needed } else { states.len() },
        forall|k: int| 0 <= k < r.len() ==> (#[trigger] r[k]).spec_status() == GroupStatus::NotReady.code(),
{
    let len = if states.len() < needed { needed } else { states.len() };
    let mut r: Vec<GroupState> = Vec::new();
    while r.len() < len
        invariant
            r.len() <= len,
            forall|k: int| 0 <= k < r.len() ==> (#[trigger] r[k]).spec_status() == GroupStatus::NotReady.code(),
        decreases len - r.len(),
    {
        r.push(GroupState::zeroed());
    }
    r
}

/// The tile bounds of workgroup `g`.
pub fn tile_bounds(g: usize, n: usize) -> (r: (usize, usize))
    requires
        g < 0x10_0000,
    ensures
        r.0 == tile_start(g as int, n as int),
        r.1 == tile_start(g + 1, n as int),
{
    let start = if g * 1024 < n { g * 1024 } else { n };
    let end = if (g + 1) * 1024 < n { (g + 1) * 1024 } else { n };
    (start, end)
}

/// The number of workgroups that a scatter pass launches, and a proof that they
/// cover the `count` elements and fit the status words grown for `fallback_count`.
pub fn covering_groups(count: u32, dispatch_indirect: bool, dispatch: &DispatchWorkgroups, fallback_count: u32) -> (r: (u32, u32))
    requires
        count <= fallback_count <= VALUE_MASK,
        dispatch_indirect ==> dispatch.count_x == div_ceil(count as int, 1024),
    ensures
        r.1 == div_ceil(fallback_count as int, 1024),
        r.0 <= r.1,
        r.1 <= 0x10_0000,
        r.0 * 1024 >= count,
{
    let fallback_groups = workgroup_count(fallback_count, BUCKET_SCATTER_SEGMENT_SIZE);
    proof {
        lemma_div_ceil(fallback_count as int, 1024);
        lemma_div_ceil(count as int, 1024);
        lemma_div_is_ordered(count + 1023, fallback_count + 1023, 1024);
        lemma_div_is_ordered(fallback_count + 1023, VALUE_MASK + 1023, 1024);
    }
    let groups = if dispatch_indirect { dispatch.count_x } else { fallback_groups };
    (groups, fallback_groups)
}

/// One pass of the radix sort over keys alone.
pub struct BucketScatter {
    group_state: Vec<GroupState>,
    group_counter: u32,
}

impl BucketScatter {
    pub fn init_u32() -> (r: Self) {
        BucketScatter { group_state: vec![GroupState::zeroed()], group_counter: 0 }
    }

    /// Moves each of the first `count` keys of `data_in` to the slot of its digit
    /// `radix_group` in `data_out`: the slot is the offset of that digit in
    /// `global_base_bucket_offsets` plus the number of earlier keys with the same
    /// digit. Workgroups resolve those earlier counts by decoupled look-back over
    /// packed per-digit status words. Slots from `count` on are left as they were.
    pub fn encode(
        &mut self,
        data_in: &Vec<u32>,
        data_out: &mut Vec<u32>,
        global_base_bucket_offsets: &Vec<u32>,
        radix_group: u32,
        count: u32,
        dispatch_indirect: bool,
        dispatch: &DispatchWorkgroups,
        fallback_count: u32,
    )
        requires
            data_in.len() == fallback_count,
            old(data_out).len() == fallback_count,
            count <= fallback_count <= VALUE_MASK,
            radix_group < 4,
            global_base_bucket_offsets.len() == 1024,
            forall|d: int| 0 <= d < 256 ==> #[trigger] global_base_bucket_offsets[radix_group * 256 + d]
                == digit_offset(data_in@, radix_group as int, d, count as int),
            dispatch_indirect ==> dispatch.count_x == div_ceil(count as int, 1024),
        ensures
            final(data_out).len() == old(data_out).len(),
            forall|i: int| 0 <= i < count ==> final(data_out)[#[trigger] scatter_destination(data_in@, radix_group as int, count as int, i)] == data_in[i],
            forall|k: int| count <= k < fallback_count ==> #[trigger] final(data_out)[k] == old(data_out)[k],
    {
        let ghost keys = data_in@;
        let ghost p = radix_group as int;
        let ghost nn = count as int;
        let uniforms = Uniforms { radix_offset: RADIX_SIZE * radix_group, radix_group };
        let (groups, fallback_groups) = covering_groups(count, dispatch_indirect, dispatch, fallback_count);
        self.group_state = cleared_states(&self.group_state, fallback_groups as usize * 256);
        self.group_counter = 0;
        let n = count as usize;
        let ghost dest = Seq::new(nn as nat, |i: int| scatter_destination(keys, p, nn, i));
        proof {
            lemma_destinations_permute(keys, p, nn);
        }
        let mut w: u32 = 0;
        while w < groups
            invariant
                w <= groups <= fallback_groups <= 0x10_0000,
                groups * 1024 >= nn,
                keys == data_in@,
                p == radix_group,
                nn == count,
                n == count,
                count <= fallback_count <= VALUE_MASK,
                data_in.len() == fallback_count,
                data_out.len() == fallback_count,
                radix_group < 4,
                uniforms.radix_offset == 8 * radix_group,
                global_base_bucket_offsets.len() == 1024,
                forall|d: int| 0 <= d < 256 ==> #[trigger] global_base_bucket_offsets[radix_group * 256 + d]
                    == digit_offset(keys, p, d, nn),
                self.group_counter == w,
                self.group_state.len() >= fallback_groups * 256,
                published_below(self.group_state@, keys, p, nn, w as int),
                dest == Seq::new(nn as nat, |i: int| scatter_destination(keys, p, nn, i)),
                is_permutation(dest, nn),
                forall|i: int| 0 <= i < tile_start(w as int, nn) ==> data_out[#[trigger] dest[i]] == keys[i],
                forall|k: int| count <= k < fallback_count ==> #[trigger] data_out[k] == old(data_out)[k],
            decreases groups - w,
        {
            let g = self.group_counter as usize;
            self.group_counter = self.group_counter + 1;
            let (start, end) = tile_bounds(g, n);
            proof {
                lemma_tile_start_mono(g as int, g + 1, nn);
                assert((g as int + 1) * 256 <= fallback_groups * 256) by (nonlinear_arith)
                    requires
                        g < fallback_groups,
                ;
            }
            let (local_counts, local_offsets) = rank_tile(data_in, start, end, uniforms.radix_offset, Ghost(p));
            let bases = resolve_group_offsets(&mut self.group_state, g, &local_counts, Ghost(keys), Ghost(p), Ghost(nn));
            let mut i: usize = start;
            while i < end
                invariant
                    start <= i <= end,
                    start == tile_start(g as int, nn),
                    end == tile_start(g + 1, nn),
                    end <= nn,
                    end - start <= 1024,
                    keys == data_in@,
                    p == radix_group,
                    nn == count,
                    count <= fallback_count <= VALUE_MASK,
                    data_in.len() == fallback_count,
                    data_out.len() == fallback_count,
                    radix_group < 4,
                    uniforms.radix_offset == 8 * radix_group,
                    global_base_bucket_offsets.len() == 1024,
                    forall|d: int| 0 <= d < 256 ==> #[trigger] global_base_bucket_offsets[radix_group * 256 + d]
                        == digit_offset(keys, p, d, nn),
                    bases.len() == 256,
                    forall|d: int| 0 <= d < 256 ==> #[trigger] bases[d] == digit_count(keys, p, d, start as int),
                    local_offsets.len() == end - start,
                    forall|k: int| start <= k < end ==> #[trigger] local_offsets[k - start] == digit_count(keys, p, radix_digit(keys[k], p), k) - digit_count(keys, p, radix_digit(keys[k], p), start as int),
                    dest == Seq::new(nn as nat, |i: int| scatter_destination(keys, p, nn, i)),
                    is_permutation(dest, nn),
                    forall|k: int| 0 <= k < i ==> data_out[#[trigger] dest[k]] == keys[k],
                    forall|k: int| count <= k < fallback_count ==> #[trigger] data_out[k] == old(data_out)[k],
                decreases end - i,
            {
                let d = key_digit(data_in[i], uniforms.radix_offset, Ghost(p));
                let ghost di = d as int;
                proof {
                    lemma_destination_bound(keys, p, nn, i as int);
                    lemma_digit_count_bounds(keys, p, di, start as int, i as int);
                    assert(dest[i as int] == scatter_destination(keys, p, nn, i as int));
                }
                let dst = global_base_bucket_offsets[radix_group as usize * 256 + d] + bases[d] + local_offsets[i - start];
                let ghost before = data_out@;
                data_out.set(dst as usize, data_in[i]);
                proof {
                    assert forall|k: int| 0 <= k < i + 1 implies data_out[#[trigger] dest[k]] == keys[k] by {
                        if k < i {
                            assert(dest[k] != dest[i as int]);
                            assert(before[dest[k]] == keys[k]);
                        }
                    }
                }
                i = i + 1;
            }
            w = w + 1;
        }
        proof {
            lemma_tile_start_mono(w as int, w as int, nn);
            assert(w as int * 1024 >= nn);
            assert forall|i: int| 0 <= i < count implies data_out[#[trigger] scatter_destination(keys, p, nn, i)] == data_in[i] by {
                assert(dest[i] == scatter_destination(keys, p, nn, i));
            }
        }
    }
}

} // verus!
