use vstd::prelude::*;

verus! {

/// Tunable limits of the search and of the keyboard models.
#[derive(Debug, Clone, Copy, PartialEq, Eq)]
pub struct Constants {
    /// Population size of the genetic algorithm.
    pub pop_size: usize,
    /// Number of generations to run.
    pub runs: usize,
    /// Number of corpus events in one fitness batch.
    pub batch_size: usize,
    /// Number of batches per fitness evaluation.
    pub batch_num: usize,
    /// Most presses of one modifier key code at a time.
    pub max_mod_pressed: usize,
    /// Most physical keys holding modifiers in one layout.
    pub max_phys_mod: usize,
    /// Most physical keys with identical key code sets in one layout.
    pub max_phys_dup: usize,
}

impl Default for Constants {
    fn default() -> (r: Self)
        ensures
            r == (Constants {
                pop_size: 0,
                runs: 0,
                batch_size: 0,
                batch_num: 0,
                max_mod_pressed: 0,
                max_phys_mod: 0,
                max_phys_dup: 0,
            }),
    {
        Constants {
            pop_size: 0,
            runs: 0,
            batch_size: 0,
            batch_num: 0,
            max_mod_pressed: 0,
            max_phys_mod: 0,
            max_phys_dup: 0,
        }
    }
}

} // verus!

verus! {

/// Most keys holding modifiers in one layer.
pub const MAX_MODS_PER_LAYER: usize = 20;

/// Most keys with identical key code sets in one layer.
pub const MAX_SAME: usize = 2;

} // verus!
