use crate::ga::util::{spec_combine_fitness, spec_count_different, unit_for};
use vstd::prelude::*;
use vstd::std_specs::cmp::PartialEqSpec;

verus! {

/// The number of positions where `s1` and `s2` differ; the positions past the end of the
/// shorter one all count as different.
pub fn count_different<T: PartialEq>(s1: &[T], s2: &[T]) -> (r: usize)
    ensures
        T::obeys_eq_spec() ==> r == spec_count_different(s1@, s2@),
        (if s1@.len() < s2@.len() { s2@.len() - s1@.len() } else { s1@.len() - s2@.len() }) <= r,
        r <= if s1@.len() < s2@.len() { s2@.len() } else { s1@.len() },
{
    crate::ga::util::count_different(s1, s2)
}

/// Combines `cur_fitness` with `next` (at most `max_next`): `cur_fitness` shifted left
/// by enough decimal digits to hold `next`, plus `next`.
pub fn combine_fitness(cur_fitness: u128, next: u128, max_next: u128) -> (r: u128)
    requires
        unit_for(max_next as nat) <= u128::MAX,
        spec_combine_fitness(cur_fitness as nat, next as nat, max_next as nat) <= u128::MAX,
    ensures
        r == spec_combine_fitness(cur_fitness as nat, next as nat, max_next as nat),
{
    crate::ga::util::combine_fitness(cur_fitness, next, max_next)
}

/// Combines `cur_fitness` with a cost `next` (at most `max_next`): the lower the cost,
/// the higher the combined fitness.
pub fn combine_cost(cur_fitness: u128, next: u128, max_next: u128) -> (r: u128)
    requires
        next <= max_next,
        unit_for(max_next as nat) <= u128::MAX,
        spec_combine_fitness(cur_fitness as nat, (max_next - next) as nat, max_next as nat)
            <= u128::MAX,
    ensures
        r == spec_combine_fitness(cur_fitness as nat, (max_next - next) as nat, max_next as nat),
{
    combine_fitness(cur_fitness, max_next - next, max_next)
}

} // verus!
