//! Data-parallel primitives: single-pass prefix scans with decoupled look-back, a
//! four-pass least-significant-digit radix sort (keys alone, or keys with companion
//! values), run discovery, and gather/scatter permutations.
//!
//! Every kernel is written as the work of its workgroups, run one after another in
//! the order in which they acquire their workgroup IDs, over host memory. The
//! inter-workgroup protocols (status words, look-back, packed offsets) are kept as they
//! are, and each primitive's contract states the result it computes.
pub mod count_buffer;
pub mod find_runs;
pub mod gather_by;
pub mod generate_dispatch;
pub mod permutation;
pub mod prefix_sum;
pub mod radix_sort;
pub mod scatter_by;
pub mod sum;
pub mod word;
pub mod write_value_type;
