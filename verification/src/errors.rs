use vstd::prelude::*;

verus! {

/// Error kind reported when an estimator is built from invalid settings.
#[derive(Clone, Copy, PartialEq, Eq, Structural, Debug)]
pub enum EstimatorErr {
    InvalidParams,
}

} // verus!
