//! In-place comparison sorting: insertion sort and a quicksort built on
//! partition primitives, each verified to produce a sorted permutation of
//! its input.

pub mod sort;
