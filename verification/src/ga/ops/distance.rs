use vstd::prelude::*;

verus! {

/// The distance between two numbers on the number line.
pub open spec fn spec_dist_abs(a: int, b: int) -> int {
    if a < b {
        b - a
    } else {
        a - b
    }
}

/// Value `i` of `s`, zero past its end.
pub open spec fn value_or_zero(s: Seq<u64>, i: int) -> int {
    if 0 <= i < s.len() {
        s[i] as int
    } else {
        0
    }
}

/// The sum of the distances between the first `n` values of `s1` and `s2`, a missing
/// value counting as zero.
pub open spec fn spec_dist1(s1: Seq<u64>, s2: Seq<u64>, n: int) -> int
    decreases n,
{
    if n <= 0 {
        0
    } else {
        spec_dist1(s1, s2, n - 1) + spec_dist_abs(value_or_zero(s1, n - 1), value_or_zero(s2, n - 1))
    }
}

/// Norm 1 distance of two numbers.
pub fn dist_abs(a: u64, b: u64) -> (r: u64)
    ensures
        r == spec_dist_abs(a as int, b as int),
{
    let mut a = a;
    let mut b = b;
    if a < b {
        std::mem::swap(&mut a, &mut b);
    }
    a - b
}

/// Norm 1 distance - manhattan distance - of two vectors, the shorter one extended with
/// zeros.
pub fn dist1(s1: &[u64], s2: &[u64]) -> (r: u64)
    requires
        spec_dist1(s1@, s2@, if s1@.len() < s2@.len() { s2@.len() as int } else { s1@.len() as int })
            <= u64::MAX,
    ensures
        r == spec_dist1(s1@, s2@, if s1@.len() < s2@.len() { s2@.len() as int } else { s1@.len() as int }),
{
    let max = if s1.len() < s2.len() {
        s2.len()
    } else {
        s1.len()
    };
    let mut dist: u64 = 0;
    let mut i: usize = 0;
    while i < max
        invariant
            i <= max,
            max == if s1@.len() < s2@.len() { s2@.len() as int } else { s1@.len() as int },
            spec_dist1(s1@, s2@, max as int) <= u64::MAX,
            dist == spec_dist1(s1@, s2@, i as int),
        decreases max - i,
    {
        let a = if i < s1.len() {
            s1[i]
        } else {
            0
        };
        let b = if i < s2.len() {
            s2[i]
        } else {
            0
        };
        proof {
            lemma_dist1_mono(s1@, s2@, i as int + 1, max as int);
        }
        dist = dist + dist_abs(a, b);
        i = i + 1;
    }
    dist
}

proof fn lemma_dist1_mono(s1: Seq<u64>, s2: Seq<u64>, m: int, n: int)
    requires
        0 <= m <= n,
    ensures
        spec_dist1(s1, s2, m) <= spec_dist1(s1, s2, n),
    decreases n,
{
    if m < n {
        lemma_dist1_mono(s1, s2, m, n - 1);
    }
}

/// The distance of two vectors does not depend on their order.
pub proof fn law_dist1_symmetric(s1: Seq<u64>, s2: Seq<u64>, n: int)
    ensures
        spec_dist1(s1, s2, n) == spec_dist1(s2, s1, n),
    decreases n,
{
    if n > 0 {
        law_dist1_symmetric(s1, s2, n - 1);
    }
}

/// A vector is at distance zero from another exactly when the two agree on every position,
/// a missing value counting as zero.
pub proof fn law_dist1_zero_iff_equal(s1: Seq<u64>, s2: Seq<u64>, n: int)
    requires
        0 <= n,
    ensures
        spec_dist1(s1, s2, n) == 0 <==> forall|i: int| 0 <= i < n ==> #[trigger] value_or_zero(s1, i)
            == value_or_zero(s2, i),
    decreases n,
{
    if n > 0 {
        law_dist1_zero_iff_equal(s1, s2, n - 1);
        lemma_dist1_mono(s1, s2, 0, n - 1);
        if spec_dist1(s1, s2, n) == 0 {
            assert forall|i: int| 0 <= i < n implies #[trigger] value_or_zero(s1, i) == value_or_zero(s2, i) by {
                if i < n - 1 {
                    assert(spec_dist1(s1, s2, n - 1) == 0);
                }
            }
        }
    }
}

} // verus!
