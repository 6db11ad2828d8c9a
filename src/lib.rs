//! Double sort: an in-place comparison sort that groups elements into
//! self-ordered pairs ("nodes") and brings the sequence to order by
//! exchanging boundary values between neighbouring nodes, taken in order of
//! their leading values.

pub mod order;
pub mod node;
pub mod pool;
pub mod heap;
pub mod sort;
pub mod fibonacci;

pub use sort::{double_heap_sort, double_sort, EmptyInputError};
