//! A symmetry of the puzzle as the indexers apply it.
use vstd::prelude::*;

verus! {

/// A symmetry: the layers exchanged, the colours exchanged, the mirror image
/// taken, and each layer turned by a number of quarter turns.
#[derive(Clone, Copy, Debug)]
pub struct Symmetry {
    pub flip_l: bool,
    pub flip_c: bool,
    pub mirror: bool,
    pub up_rot: usize,
    pub down_rot: usize,
}

} // verus!
