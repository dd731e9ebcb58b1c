use crate::generate_dispatch::{div_ceil, workgroup_count, DispatchWorkgroups, linear_dispatch};
use vstd::prelude::*;

verus! {

/// Elements per workgroup of the histogram kernel and of the scatter kernel.
#[derive(Clone, Copy, PartialEq, Eq, Structural, Debug)]
pub struct SegmentSizes {
    pub histogram: u32,
    pub scatter: u32,
}

/// The single-thread kernel that writes the indirect-dispatch records of both the
/// histogram kernel and the scatter kernel from one element count.
pub struct GenerateDispatches {}

impl GenerateDispatches {
    pub fn init() -> (r: Self) {
        GenerateDispatches {}
    }

    /// Writes `(⌈max_count / s⌉, 1, 1)` for each of the two segment sizes `s`.
    pub fn encode(
        &self,
        segment_sizes: &SegmentSizes,
        max_count: u32,
        histogram_dispatch: &mut DispatchWorkgroups,
        scatter_dispatch: &mut DispatchWorkgroups,
    )
        requires
            segment_sizes.histogram > 0,
            segment_sizes.scatter > 0,
        ensures
            *final(histogram_dispatch) == linear_dispatch(div_ceil(max_count as int, segment_sizes.histogram as int) as u32),
            *final(scatter_dispatch) == linear_dispatch(div_ceil(max_count as int, segment_sizes.scatter as int) as u32),
    {
        *histogram_dispatch = DispatchWorkgroups {
            count_x: workgroup_count(max_count, segment_sizes.histogram),
            count_y: 1,
            count_z: 1,
        };
        *scatter_dispatch = DispatchWorkgroups {
            count_x: workgroup_count(max_count, segment_sizes.scatter),
            count_y: 1,
            count_z: 1,
        };
    }
}

} // verus!
