use vstd::prelude::*;

verus! {

/// `s` with the value at one position chosen at random replaced by `v`; `s` itself when it
/// is empty. Which position is chosen is left to chance.
pub fn replace_rand<T: Copy>(s: &[T], v: T) -> (r: Vec<T>)
    ensures
        s@.len() == 0 ==> r@ == s@,
        s@.len() > 0 ==> exists|i: int| 0 <= i < s@.len() && r@ == s@.update(i, v),
{
    crate::ga::util::replace_rand(s, v)
}

} // verus!
