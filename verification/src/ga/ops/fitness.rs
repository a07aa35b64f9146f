use crate::ga::util::spec_count_different;
use vstd::prelude::*;
use vstd::std_specs::cmp::PartialEqSpec;

verus! {

/// The number of positions where `s1` and `s2` differ; the positions past the end of the
/// shorter one all count as different.
pub fn count_different<T: PartialEq>(s1: &[T], s2: &[T]) -> (r: usize)
    ensures
        T::obeys_eq_spec() ==> r == spec_count_different(s1@, s2@),
        (if s1@.len() < s2@.len() { s2@.len() - s1@.len() } else { s1@.len() - s2@.len() }) <= r,
        r <= if s1@.len() < s2@.len() { s2@.len() } else { s1@.len() },
{
    crate::ga::util::count_different(s1, s2)
}

} // verus!
