//! Impartial games with positions.

pub mod quicksort;
pub mod quicksort_order;
