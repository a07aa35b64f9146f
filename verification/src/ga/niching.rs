use vstd::prelude::*;

verus! {

/// How fitness is shared among similar individuals.
#[derive(Debug, Copy, Clone, Eq, PartialEq, Structural)]
pub enum Niching {
    /// Fitness is not shared.
    Off,
    /// Shared fitness with a target number of species.
    SharedFitness(usize),
}

} // verus!
