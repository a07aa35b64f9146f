use vstd::prelude::*;

verus! {

/// `k` values, each the result of one call of `f`, in the order of the calls.
pub fn rand_vec<T>(k: usize, f: impl FnMut() -> T) -> (r: Vec<T>)
    requires
        call_requires(f, ()),
    ensures
        r@.len() == k,
        forall|i: int| 0 <= i < k ==> call_ensures(f, (), #[trigger] r@[i]),
{
    crate::ga::ops::util::rand_vec(k, f)
}

/// The characters of `input`, in order, as a string.
pub fn vec_to_str(input: &[char]) -> (r: String)
    ensures
        r@ == input@,
{
    crate::ga::ops::util::vec_to_str(input)
}

/// The characters of `input`, in order.
pub fn str_to_vec(input: &str) -> (r: Vec<char>)
    ensures
        r@ == input@,
{
    crate::ga::ops::util::str_to_vec(input)
}

} // verus!
