use crate::ga::ops::util::choose_position;
use vstd::prelude::*;

verus! {

/// Replaces the value at one position of `s`, chosen at random, with `v`; an empty `s` is
/// left as it is. Which position is chosen is left to chance.
pub fn mutate_reset<T>(s: &mut Vec<T>, v: T)
    ensures
        old(s)@.len() == 0 ==> final(s)@ == old(s)@,
        old(s)@.len() > 0 ==> exists|i: int|
            0 <= i < old(s)@.len() && final(s)@ == old(s)@.update(i, v),
{
    match choose_position(s.len()) {
        Some(i) => {
            s.set(i, v);
        },
        None => {},
    }
}

} // verus!
