//! An object pool with stable integer handles.
//!
//! Values are stored in a dense backing array; a hierarchical free-slot
//! index answers first-free and last-occupied queries in logarithmic time.
//! [`Pond`] is the pool itself; [`binary_tree::BinaryTree`] and
//! [`bitmap::AcceleratedBitmap`] are the two realizations of the
//! occupancy index.

pub mod binary_tree;
pub mod bitmap;
pub mod pondaos;

pub use binary_tree::BinaryTree;
pub use bitmap::AcceleratedBitmap;
pub use pondaos::Pond;

use vstd::prelude::*;

verus! {

/// True when the word `w` has bit `j` set (bit 0 is the least significant).
pub open spec fn nth_bit(w: u64, j: u64) -> bool {
    (w >> j) & 1u64 == 1u64
}

} // verus!
