use vstd::prelude::*;

verus! {

/// How fitness is shared among similar individuals.
#[derive(Debug, Copy, Clone, Eq, PartialEq, Structural, PartialOrd)]
pub enum Niching {
    /// Fitness is not shared.
    Off,
    SharedFitness,
}

/// How the population is split into species.
#[derive(Debug, Copy, Clone, Eq, PartialEq, Structural, PartialOrd)]
pub enum Species {
    /// The population is one species.
    Off,
    /// Aim for this many species.
    TargetNumber(usize),
}

} // verus!
