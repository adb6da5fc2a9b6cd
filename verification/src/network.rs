//! Names for the printable parts of a network's state.

use vstd::prelude::*;

verus! {

/// One of the per-layer vectors a network report can show: the induced
/// fields, the activated outputs, the error terms, or the weight matrix.
#[derive(Clone, Copy, Debug, PartialEq, Eq, Structural)]
pub enum Field {
    Induced,
    Y,
    Deltas,
    Weights,
}

} // verus!
