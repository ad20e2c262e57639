//! Block-face detection vocabulary: the world axes that detected line
//! segments are assigned to.
use vstd::prelude::*;

verus! {

/// A world axis (+X east, +Y up, +Z south).
#[derive(Debug, Clone, Copy, PartialEq, Eq, Structural)]
pub enum Axis {
    X,
    Y,
    Z,
}

} // verus!
