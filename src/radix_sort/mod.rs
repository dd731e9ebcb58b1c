use vstd::prelude::*;

pub mod bucket_histogram;
pub mod bucket_scatter;
pub mod bucket_scatter_by;
pub mod canonical;
pub mod digits;
pub mod generate_dispatches;
pub mod global_bucket_offsets;
pub mod sort;
pub use self::sort::{is_stable_sort, live_count, sorted_on_low_digits, RadixSort, RadixSortInput};
pub mod sort_by;
pub use self::sort_by::{is_stable_sort_by, sorted_by_on_low_digits, RadixSortBy, RadixSortByInput};

verus! {

/// Bits per digit.
pub const RADIX_SIZE: u32 = 8;
/// Values per digit.
pub const RADIX_DIGITS: usize = 256;
/// Digits per 32-bit key.
pub const RADIX_GROUPS: usize = 4;

} // verus!
