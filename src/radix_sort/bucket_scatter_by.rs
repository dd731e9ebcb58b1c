use crate::generate_dispatch::{div_ceil, DispatchWorkgroups};
use crate::permutation::is_permutation;
use crate::radix_sort::bucket_scatter::{
    cleared_states, covering_groups, key_digit, lemma_tile_start_mono, published_below, rank_tile,
    resolve_group_offsets, tile_bounds, tile_start, GroupState, VALUE_MASK,
};
use crate::radix_sort::digits::{
    digit_count, digit_offset, lemma_destination_bound, lemma_destinations_permute, lemma_digit_count_bounds,
    radix_digit, scatter_destination,
};
use crate::radix_sort::RADIX_SIZE;
use vstd::prelude::*;

verus! {

pub const GROUP_SIZE: u32 = 256;
pub const VALUES_PER_THREAD: u32 = 4;
/// Elements per workgroup of a scatter pass that carries values.
pub const BUCKET_SCATTER_BY_SEGMENT_SIZE: u32 = 1024;

/// The per-pass parameters of a scatter kernel that carries values.
#[derive(Clone, Copy, PartialEq, Eq, Structural, Debug)]
pub struct Uniforms {
    pub radix_offset: u32,
    pub radix_group: u32,
}

/// One pass of the radix sort over keys with companion values.
pub struct BucketScatterBy {
    group_state: Vec<GroupState>,
    group_counter: u32,
}

impl BucketScatterBy {
    pub fn init_u32() -> (r: Self) {
        BucketScatterBy { group_state: vec![GroupState::zeroed()], group_counter: 0 }
    }

    /// Moves each of the first `count` keys of `keys_in`, with the value at the same
    /// index of `values_in`, to the slot of its digit `radix_group` in `keys_out` and
    /// `values_out`, as `BucketScatter::encode` places keys alone.
    pub fn encode<V: Copy>(
        &mut self,
        keys_in: &Vec<u32>,
        keys_out: &mut Vec<u32>,
        values_in: &Vec<V>,
        values_out: &mut Vec<V>,
        global_base_bucket_offsets: &Vec<u32>,
        radix_group: u32,
        count: u32,
        dispatch_indirect: bool,
        dispatch: &DispatchWorkgroups,
        fallback_count: u32,
    )
        requires
            keys_in.len() == fallback_count,
            old(keys_out).len() == fallback_count,
            values_in.len() == fallback_count,
            old(values_out).len() == fallback_count,
            count <= fallback_count <= VALUE_MASK,
            radix_group < 4,
            global_base_bucket_offsets.len() == 1024,
            forall|d: int| 0 <= d < 256 ==> #[trigger] global_base_bucket_offsets[radix_group * 256 + d]
                == digit_offset(keys_in@, radix_group as int, d, count as int),
            dispatch_indirect ==> dispatch.count_x == div_ceil(count as int, 1024),
        ensures
            final(keys_out).len() == old(keys_out).len(),
            final(values_out).len() == old(values_out).len(),
            forall|i: int| 0 <= i < count ==> final(keys_out)[#[trigger] scatter_destination(keys_in@, radix_group as int, count as int, i)] == keys_in[i],
            forall|i: int| 0 <= i < count ==> final(values_out)[#[trigger] scatter_destination(keys_in@, radix_group as int, count as int, i)] == values_in[i],
            forall|k: int| count <= k < fallback_count ==> #[trigger] final(keys_out)[k] == old(keys_out)[k],
            forall|k: int| count <= k < fallback_count ==> #[trigger] final(values_out)[k] == old(values_out)[k],
    {
        let ghost keys = keys_in@;
        let ghost p = radix_group as int;
        let ghost nn = count as int;
        let uniforms = Uniforms { radix_offset: RADIX_SIZE * radix_group, radix_group };
        let (groups, fallback_groups) = covering_groups(count, dispatch_indirect, dispatch, fallback_count);
        self.group_state = cleared_states(&self.group_state, fallback_groups as usize * 256);
        self.group_counter = 0;
        let n = count as usize;
        let ghost dest = Seq::new(nn as nat, |i: int| scatter_destination(keys, p, nn, i));
        proof {
            lemma_destinations_permute(keys, p, nn);
        }
        let mut w: u32 = 0;
        while w < groups
            invariant
                w <= groups <= fallback_groups <= 0x10_0000,
                groups * 1024 >= nn,
                keys == keys_in@,
                p == radix_group,
                nn == count,
                n == count,
                count <= fallback_count <= VALUE_MASK,
                keys_in.len() == fallback_count,
                values_in.len() == fallback_count,
                keys_out.len() == fallback_count,
                values_out.len() == fallback_count,
                radix_group < 4,
                uniforms.radix_offset == 8 * radix_group,
                global_base_bucket_offsets.len() == 1024,
                forall|d: int| 0 <= d < 256 ==> #[trigger] global_base_bucket_offsets[radix_group * 256 + d]
                    == digit_offset(keys, p, d, nn),
                self.group_counter == w,
                self.group_state.len() >= fallback_groups * 256,
                published_below(self.group_state@, keys, p, nn, w as int),
                dest == Seq::new(nn as nat, |i: int| scatter_destination(keys, p, nn, i)),
                is_permutation(dest, nn),
                forall|i: int| 0 <= i < tile_start(w as int, nn) ==> keys_out[#[trigger] dest[i]] == keys[i],
                forall|i: int| 0 <= i < tile_start(w as int, nn) ==> values_out[#[trigger] dest[i]] == values_in[i],
                forall|k: int| count <= k < fallback_count ==> #[trigger] keys_out[k] == old(keys_out)[k],
                forall|k: int| count <= k < fallback_count ==> #[trigger] values_out[k] == old(values_out)[k],
            decreases groups - w,
        {
            let g = self.group_counter as usize;
            self.group_counter = self.group_counter + 1;
            let (start, end) = tile_bounds(g, n);
            proof {
                lemma_tile_start_mono(g as int, g + 1, nn);
                assert((g as int + 1) * 256 <= fallback_groups * 256) by (nonlinear_arith)
                    requires
                        g < fallback_groups,
                ;
            }
            let (local_counts, local_offsets) = rank_tile(keys_in, start, end, uniforms.radix_offset, Ghost(p));
            let bases = resolve_group_offsets(&mut self.group_state, g, &local_counts, Ghost(keys), Ghost(p), Ghost(nn));
            let mut i: usize = start;
            while i < end
                invariant
                    start <= i <= end,
                    start == tile_start(g as int, nn),
                    end == tile_start(g + 1, nn),
                    end <= nn,
                    end - start <= 1024,
                    keys == keys_in@,
                    p == radix_group,
                    nn == count,
                    count <= fallback_count <= VALUE_MASK,
                    keys_in.len() == fallback_count,
                values_in.len() == fallback_count,
                    keys_out.len() == fallback_count,
                values_out.len() == fallback_count,
                    radix_group < 4,
                    uniforms.radix_offset == 8 * radix_group,
                    global_base_bucket_offsets.len() == 1024,
                    forall|d: int| 0 <= d < 256 ==> #[trigger] global_base_bucket_offsets[radix_group * 256 + d]
                        == digit_offset(keys, p, d, nn),
                    bases.len() == 256,
                    forall|d: int| 0 <= d < 256 ==> #[trigger] bases[d] == digit_count(keys, p, d, start as int),
                    local_offsets.len() == end - start,
                    forall|k: int| start <= k < end ==> #[trigger] local_offsets[k - start] == digit_count(keys, p, radix_digit(keys[k], p), k) - digit_count(keys, p, radix_digit(keys[k], p), start as int),
                    dest == Seq::new(nn as nat, |i: int| scatter_destination(keys, p, nn, i)),
                    is_permutation(dest, nn),
                    forall|k: int| 0 <= k < i ==> keys_out[#[trigger] dest[k]] == keys[k],
                    forall|k: int| 0 <= k < i ==> values_out[#[trigger] dest[k]] == values_in[k],
                    forall|k: int| count <= k < fallback_count ==> #[trigger] keys_out[k] == old(keys_out)[k],
                    forall|k: int| count <= k < fallback_count ==> #[trigger] values_out[k] == old(values_out)[k],
                forall|k: int| count <= k < fallback_count ==> #[trigger] values_out[k] == old(values_out)[k],
                decreases end - i,
            {
                let d = key_digit(keys_in[i], uniforms.radix_offset, Ghost(p));
                let ghost di = d as int;
                proof {
                    lemma_destination_bound(keys, p, nn, i as int);
                    lemma_digit_count_bounds(keys, p, di, start as int, i as int);
                    assert(dest[i as int] == scatter_destination(keys, p, nn, i as int));
                }
                let dst = global_base_bucket_offsets[radix_group as usize * 256 + d] + bases[d] + local_offsets[i - start];
                let ghost before = keys_out@;
                let ghost before_values = values_out@;
                keys_out.set(dst as usize, keys_in[i]);
                values_out.set(dst as usize, values_in[i]);
                proof {
                    assert forall|k: int| 0 <= k < i + 1 implies keys_out[#[trigger] dest[k]] == keys[k] by {
                        if k < i {
                            assert(dest[k] != dest[i as int]);
                            assert(before[dest[k]] == keys[k]);
                        }
                    }
                    assert forall|k: int| 0 <= k < i + 1 implies values_out[#[trigger] dest[k]] == values_in[k] by {
                        if k < i {
                            assert(dest[k] != dest[i as int]);
                            assert(before_values[dest[k]] == values_in[k]);
                        }
                    }
                }
                i = i + 1;
            }
            w = w + 1;
        }
        proof {
            lemma_tile_start_mono(w as int, w as int, nn);
            assert(w as int * 1024 >= nn);
            assert forall|i: int| 0 <= i < count implies keys_out[#[trigger] scatter_destination(keys, p, nn, i)] == keys_in[i] by {
                assert(dest[i] == scatter_destination(keys, p, nn, i));
            }
            assert forall|i: int| 0 <= i < count implies values_out[#[trigger] scatter_destination(keys, p, nn, i)] == values_in[i] by {
                assert(dest[i] == scatter_destination(keys, p, nn, i));
            }
        }
    }
}

} // verus!
