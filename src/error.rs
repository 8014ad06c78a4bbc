//! The outcomes that the encoders report instead of a value.
use vstd::prelude::*;

verus! {

/// Why a fit or a transform produced no result.
#[derive(Clone, Copy, Debug, PartialEq, Eq, Structural)]
pub enum EncodeError {
    /// A parameter lies outside its domain: a smoothing that is not greater
    /// than zero, or a `ddof` greater than the number of values.
    InvalidParameter,
    /// The target vector is empty, so the prior is undefined.
    EmptyInput,
    /// A category given to a transform was not seen when the encoder was fit.
    UnseenCategory,
    /// James-Stein shrinkage was asked of a column with two distinct
    /// categories, where its `(k - 3) / (k - 1)` factor is degenerate.
    DegenerateShrinkage,
}

} // verus!
