//! A small parallel-reduction utility: a digit sequence is split into
//! contiguous chunks, each chunk is summed on its own, and the partial sums
//! are combined in chunk order. A singly linked list of `u32` values stands
//! beside it.
pub mod input;
pub mod list;
pub mod reducer;
