use vstd::prelude::*;

verus! {

/// A time series of samples.
#[derive(Debug, Clone, PartialOrd, PartialEq)]
pub struct Series;

} // verus!
