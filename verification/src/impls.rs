//! Wire forms of the built-in types.

pub mod bits;
pub mod generics;
pub mod scalars;
pub mod tuples;
