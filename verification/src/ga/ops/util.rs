use vstd::prelude::*;
use vstd::std_specs::iter::IteratorSpec;

verus! {

broadcast use vstd::string::group_string_axioms;

/// Calls `String::push`: appends `c` to `s`.
#[verifier::external_body]
pub(crate) fn string_push(s: &mut String, c: char)
    ensures
        final(s)@ == old(s)@.push(c),
{
    s.push(c)
}

/// Calls `rand::seq::IteratorRandom::choose_multiple` on the positions `0..n` with the
/// thread's random number generator: `amount` distinct positions below `n`, chosen at
/// random. Which positions are chosen, and in what order, is left unsaid; room for
/// `amount` positions is assumed to be available.
#[verifier::external_body]
pub(crate) fn choose_positions(n: usize, amount: usize) -> (r: Vec<usize>)
    requires
        amount <= n,
    ensures
        r@.len() == amount,
        r@.no_duplicates(),
        forall|i: int| 0 <= i < r@.len() ==> #[trigger] r@[i] < n,
{
    rand::seq::IteratorRandom::choose_multiple(0..n, &mut rand::rng(), amount)
}

/// Calls `rand::seq::IteratorRandom::choose` on the positions `0..n` with the thread's
/// random number generator: one position below `n` chosen at random, none when `n` is 0.
/// Which position is chosen is left unsaid.
#[verifier::external_body]
pub(crate) fn choose_position(n: usize) -> (r: Option<usize>)
    ensures
        r is None <==> n == 0,
        r matches Some(i) ==> i < n,
{
    rand::seq::IteratorRandom::choose(0..n, &mut rand::rng())
}

/// Calls `rand::random::<bool>()`: a coin flip. Its outcome is left unsaid.
#[verifier::external_body]
pub(crate) fn random_bool() -> (r: bool) {
    rand::random::<bool>()
}

/// `n` coin flips.
pub(crate) fn coin_flips(n: usize) -> (r: Vec<bool>)
    ensures
        r@.len() == n,
{
    let mut v: Vec<bool> = Vec::new();
    let mut i: usize = 0;
    while i < n
        invariant
            i <= n,
            v@.len() == i,
        decreases n - i,
    {
        v.push(random_bool());
        i = i + 1;
    }
    v
}

/// `k` values, each the result of one call of `f`, in the order of the calls.
pub fn rand_vec<T>(k: usize, mut f: impl FnMut() -> T) -> (r: Vec<T>)
    requires
        call_requires(f, ()),
    ensures
        r@.len() == k,
        forall|i: int| 0 <= i < k ==> call_ensures(f, (), #[trigger] r@[i]),
{
    broadcast use vstd::function::group_function_axioms;

    let ghost f0 = f;
    let mut v: Vec<T> = Vec::new();
    let mut i: usize = 0;
    while i < k
        invariant
            i <= k,
            v@.len() == i,
            f == f0,
            call_requires(f, ()),
            forall|j: int| 0 <= j < i ==> call_ensures(f, (), #[trigger] v@[j]),
        decreases k - i,
    {
        v.push(f());
        i = i + 1;
    }
    v
}

/// The characters of `input`, in order, as a string.
pub fn vec_to_str(input: &[char]) -> (r: String)
    ensures
        r@ == input@,
{
    let mut s = String::new();
    let mut i: usize = 0;
    while i < input.len()
        invariant
            i <= input@.len(),
            s@ == input@.take(i as int),
        decreases input.len() - i,
    {
        string_push(&mut s, input[i]);
        proof {
            assert(input@.take(i as int + 1) =~= input@.take(i as int).push(input@[i as int]));
        }
        i = i + 1;
    }
    proof {
        assert(input@.take(input@.len() as int) =~= input@);
    }
    s
}

/// The characters of `input`, in order.
pub fn str_to_vec(input: &str) -> (r: Vec<char>)
    ensures
        r@ == input@,
{
    let mut v: Vec<char> = Vec::new();
    let mut it = input.chars();
    loop
        invariant
            v@ + it.remaining() == input@,
            it.obeys_prophetic_iter_laws(),
            it.decrease() is Some,
        ensures
            v@ == input@,
        decreases it.decrease()->0,
    {
        let ghost before = it.remaining();
        match it.next() {
            Some(c) => {
                proof {
                    assert(v@.push(c) + it.remaining() =~= v@ + before);
                }
                v.push(c);
            },
            None => {
                proof {
                    assert(v@ + before =~= v@);
                }
                break;
            },
        }
    }
    v
}

} // verus!
