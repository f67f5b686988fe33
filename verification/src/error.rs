use vstd::prelude::*;

verus! {

/// The ways in which building a forest can fail. Both conditions are detected
/// before any tree is built and before any randomness is consumed.
#[derive(Debug, Clone, Copy, PartialEq, Eq, Structural)]
pub enum Error {
    /// The requested extension level is not smaller than the dimension.
    ExtensionLevelExceedsDimensions,
    /// The training set is smaller than the requested per-tree sample size,
    /// or the dimension of the data is zero.
    InsufficientTrainingData,
}

impl Error {
    /// A human-readable description of the failure.
    pub fn message(&self) -> (r: &'static str)
        ensures
            *self is ExtensionLevelExceedsDimensions ==> r@ == (
            "Extension level has to be less than the number of dimensions")@,
            *self is InsufficientTrainingData ==> r@ == ("insufficient training data")@,
    {
        match self {
            Error::ExtensionLevelExceedsDimensions => {
                "Extension level has to be less than the number of dimensions"
            },
            Error::InsufficientTrainingData => "insufficient training data",
        }
    }
}

} // verus!
