//! Binary search over sorted sequences and a stable merge sort, generic over
//! any element type whose comparison behaves as a total order.
pub mod order;
pub mod search;
pub mod sort;
