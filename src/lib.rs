//! Exact matching of a pattern inside a sequence with the Knuth-Morris-Pratt
//! algorithm, proved to report every occurrence, overlapping ones included.

pub mod border;
pub mod search;

pub use search::{compute_lps_table, kmp_search};
