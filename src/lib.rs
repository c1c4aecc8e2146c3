//! A fixed-capacity ring buffer that overwrites its oldest value when full.
//!
//! The buffer never grows after construction. Values leave it either one at a
//! time, oldest first, through `next`, or in bulk through `fill`, which appends
//! to a vector without ever growing it.

use vstd::prelude::*;

pub mod buffer;
pub mod model;

pub use buffer::CircularBuffer;

verus! {

} // verus!
