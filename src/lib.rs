//! Sorting networks over lanes of `u32`, a block merge of two sorted
//! sequences built on them, and a doubling merge sort for whole sequences.

pub mod order;
pub mod network;
pub mod merge;
pub mod sort;
pub mod laws;
pub mod qir;
pub mod timing;
