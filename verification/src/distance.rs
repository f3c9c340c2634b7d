//! The metrics.

use vstd::prelude::*;

verus! {

/// How two vectors are compared. The smaller the distance, the better, for
/// all of them.
#[derive(Debug, Clone, Copy, PartialEq, Eq, Structural)]
pub enum Metric {
    /// Squared Euclidean distance, which ranks as the distance does.
    L2,
    /// The negated inner product.
    Dot,
    /// One minus the cosine.
    Cosine,
}

} // verus!
