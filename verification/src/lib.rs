//! Disjoint sets over integer elements, in four forms: one component id per
//! element, a forest of parent links, such a forest with counters that steer
//! linking and with paths shortened while a root is looked up, and a square grid
//! of sites with two virtual sites above and below it.

pub mod forest;
pub mod percolation;
pub mod quick_find;
pub mod quick_union;
pub mod weighted_quick_union_path_compression;
