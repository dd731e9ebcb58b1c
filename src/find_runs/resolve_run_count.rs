use vstd::prelude::*;

verus! {

/// The single-thread kernel that reads the number of runs off the run mapping.
pub struct ResolveRunCount {}

impl ResolveRunCount {
    pub fn init() -> (r: Self) {
        ResolveRunCount {}
    }

    /// Writes the run mapping's entry for the last of the first `count` elements (its
    /// highest run number), or zero when `count` is zero.
    pub fn encode(&self, count: u32, temporary_storage: &Vec<u32>, run_count: &mut u32)
        requires
            count <= temporary_storage.len(),
        ensures
            *final(run_count) == if count == 0 { 0 } else { temporary_storage[count - 1] },
    {
        *run_count = if count == 0 { 0 } else { temporary_storage[count as usize - 1] };
    }
}

} // verus!
