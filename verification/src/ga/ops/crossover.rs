use crate::ga::ops::util::{choose_positions, coin_flips};
use crate::models::count_map::lemma_insert_multiset;
use vstd::prelude::*;
use vstd::relations::{sorted_by, total_ordering};

verus! {

broadcast use vstd::seq_lib::group_to_multiset_ensures, vstd::multiset::group_multiset_axioms;

/// The order of crossover points.
pub open spec fn point_le(a: usize, b: usize) -> bool {
    a <= b
}

/// The crossover points `xpoints` together with `min`, in increasing order.
pub open spec fn sorted_points(xpoints: Seq<usize>, min: usize) -> Seq<usize> {
    xpoints.push(min).sort_by(|a: usize, b: usize| point_le(a, b))
}

/// Whether position `i` lies in one of the ranges `[pts[2c], pts[2c + 1])`.
pub open spec fn in_swapped_range(pts: Seq<usize>, i: int) -> bool {
    exists|c: int| 0 <= c && 2 * c + 1 < pts.len() && pts[2 * c] <= i < #[trigger] pts[2 * c + 1]
}

/// No range `[pts[2c], pts[2c + 1])` reaches past `min`.
pub open spec fn ranges_within(pts: Seq<usize>, min: usize) -> bool {
    forall|c: int|
        0 <= c && 2 * c + 1 < pts.len() ==> pts[2 * c] == #[trigger] pts[2 * c + 1] || pts[2 * c
            + 1] <= min
}

/// Whether `s` never decreases.
pub open spec fn increasing(s: Seq<usize>) -> bool {
    forall|a: int, b: int| 0 <= a < b < s.len() ==> #[trigger] s[a] <= #[trigger] s[b]
}

pub(crate) proof fn lemma_increasing_sorted(s: Seq<usize>)
    ensures
        increasing(s) <==> sorted_by(s, |a: usize, b: usize| point_le(a, b)),
{
    let leq = |a: usize, b: usize| point_le(a, b);
    if increasing(s) {
        assert forall|a: int, b: int| 0 <= a < b < s.len() implies #[trigger] leq(s[a], s[b]) by {
            assert(s[a] <= s[b]);
        }
    }
    if sorted_by(s, leq) {
        assert forall|a: int, b: int| 0 <= a < b < s.len() implies #[trigger] s[a] <= #[trigger] s[b] by {
            assert(leq(s[a], s[b]));
        }
    }
}

pub(crate) proof fn lemma_point_le_total()
    ensures
        total_ordering(|a: usize, b: usize| point_le(a, b)),
{
}

/// `v` in increasing order.
pub(crate) fn sort_points(v: &Vec<usize>) -> (r: Vec<usize>)
    ensures
        increasing(r@),
        r@.to_multiset() =~= v@.to_multiset(),
{
    let mut r: Vec<usize> = Vec::new();
    let mut i: usize = 0;
    while i < v.len()
        invariant
            i <= v.len(),
            increasing(r@),
            r@.to_multiset() =~= v@.subrange(0, i as int).to_multiset(),
        decreases v.len() - i,
    {
        let x = v[i];
        let mut p: usize = 0;
        while p < r.len() && r[p] < x
            invariant
                p <= r.len(),
                forall|j: int| 0 <= j < p ==> #[trigger] r@[j] < x,
            decreases r.len() - p,
        {
            p = p + 1;
        }
        let ghost old_r = r@;
        r.insert(p, x);
        proof {
            lemma_insert_multiset(old_r, p as int, x);
            assert(v@.subrange(0, i as int + 1) =~= v@.subrange(0, i as int).push(x));
            assert forall|a: int, b: int| 0 <= a < b < r@.len() implies #[trigger] r@[a]
                <= #[trigger] r@[b] by {
                if b < p {
                    assert(old_r[a] <= old_r[b]);
                } else if a < p && b == p {
                } else if a < p && b > p {
                    assert(old_r[p as int] <= old_r[b - 1]);
                } else if a == p {
                    if p < old_r.len() {
                        assert(old_r[p as int] <= old_r[b - 1]);
                    }
                } else {
                    assert(old_r[a - 1] <= old_r[b - 1]);
                }
            }
        }
        i = i + 1;
    }
    proof {
        assert(v@.subrange(0, v@.len() as int) =~= v@);
    }
    r
}

/// The length of the shorter of `a` and `b`.
pub open spec fn min_len<T>(a: Seq<T>, b: Seq<T>) -> usize {
    if a.len() < b.len() {
        a.len() as usize
    } else {
        b.len() as usize
    }
}

/// `n1` and `n2` are what k-point crossover at `xpoints` makes of `o1` and `o2`: in each
/// range between the sorted points taken two at a time, the values are swapped.
pub open spec fn kpx_swapped<T>(
    o1: Seq<T>,
    o2: Seq<T>,
    xpoints: Seq<usize>,
    n1: Seq<T>,
    n2: Seq<T>,
) -> bool {
    let pts = sorted_points(xpoints, min_len(o1, o2));
    &&& n1.len() == o1.len()
    &&& n2.len() == o2.len()
    &&& forall|i: int|
        0 <= i < o1.len() ==> #[trigger] n1[i] == if i < min_len(o1, o2) && in_swapped_range(
            pts,
            i,
        ) {
            o2[i]
        } else {
            o1[i]
        }
    &&& forall|i: int|
        0 <= i < o2.len() ==> #[trigger] n2[i] == if i < min_len(o1, o2) && in_swapped_range(
            pts,
            i,
        ) {
            o1[i]
        } else {
            o2[i]
        }
}

/// K-point crossover: `xpoints` and the length of the shorter parent, sorted, are taken
/// two at a time as ranges `[start, end)`, and the parents swap their values in each
/// range (a last point without a partner is left out).
pub fn crossover_kpx<T: Copy>(s1: &mut Vec<T>, s2: &mut Vec<T>, xpoints: &[usize])
    requires
        ranges_within(
            sorted_points(xpoints@, min_len(old(s1)@, old(s2)@)),
            min_len(old(s1)@, old(s2)@),
        ),
    ensures
        kpx_swapped(old(s1)@, old(s2)@, xpoints@, final(s1)@, final(s2)@),
{
    let min = if s1.len() < s2.len() {
        s1.len()
    } else {
        s2.len()
    };
    let mut points: Vec<usize> = Vec::new();
    let mut k: usize = 0;
    while k < xpoints.len()
        invariant
            k <= xpoints@.len(),
            points@ == xpoints@.take(k as int),
        decreases xpoints.len() - k,
    {
        points.push(xpoints[k]);
        proof {
            assert(xpoints@.take(k as int + 1) =~= xpoints@.take(k as int).push(xpoints@[k as int]));
        }
        k = k + 1;
    }
    proof {
        assert(xpoints@.take(xpoints@.len() as int) =~= xpoints@);
    }
    points.push(min);
    let pts = sort_points(&points);
    let ghost spts = sorted_points(xpoints@, min);
    proof {
        lemma_point_le_total();
        lemma_increasing_sorted(pts@);
        points@.lemma_sort_by_ensures(|a: usize, b: usize| point_le(a, b));
        vstd::seq_lib::lemma_sorted_unique(pts@, spts, |a: usize, b: usize| point_le(a, b));
    }
    let ghost o1 = s1@;
    let ghost o2 = s2@;
    let mut c: usize = 0;
    while c + 1 < pts.len()
        invariant
            pts@ == spts,
            increasing(spts),
            ranges_within(spts, min),
            min <= o1.len(),
            min <= o2.len(),
            c % 2 == 0,
            c <= pts@.len(),
            s1@.len() == o1.len(),
            s2@.len() == o2.len(),
            forall|i: int|
                0 <= i < o1.len() ==> #[trigger] s1@[i] == if in_swapped_range(spts.take(c as int), i) {
                    o2[i]
                } else {
                    o1[i]
                },
            forall|i: int|
                0 <= i < o2.len() ==> #[trigger] s2@[i] == if in_swapped_range(spts.take(c as int), i) {
                    o1[i]
                } else {
                    o2[i]
                },
        decreases pts.len() - c,
    {
        let st = pts[c];
        let en = pts[c + 1];
        proof {
            assert(spts[c as int] <= spts[c + 1]);
            assert(spts[2 * (c / 2)] == spts[c as int]);
            assert(st == en || en <= min);
        }
        let ghost b1 = s1@;
        let ghost b2 = s2@;
        let mut i: usize = st;
        while i < en
            invariant
                st <= i <= en,
                st == en || en <= min,
                min <= b1.len(),
                min <= b2.len(),
                s1@.len() == b1.len(),
                s2@.len() == b2.len(),
                forall|j: int|
                    0 <= j < b1.len() ==> #[trigger] s1@[j] == if st <= j < i {
                        b2[j]
                    } else {
                        b1[j]
                    },
                forall|j: int|
                    0 <= j < b2.len() ==> #[trigger] s2@[j] == if st <= j < i {
                        b1[j]
                    } else {
                        b2[j]
                    },
            decreases en - i,
        {
            let a = s1[i];
            let b = s2[i];
            s1.set(i, b);
            s2.set(i, a);
            i = i + 1;
        }
        proof {
            let t = spts.take(c as int);
            let t2 = spts.take(c as int + 2);
            assert forall|j: int| 0 <= j < o1.len() + o2.len() implies #[trigger] in_swapped_range(t2, j) == (
            in_swapped_range(t, j) || st <= j < en) by {
                if in_swapped_range(t, j) {
                    let w = choose|w: int|
                        0 <= w && 2 * w + 1 < t.len() && t[2 * w] <= j < #[trigger] t[2 * w + 1];
                    assert(t2[2 * w] == t[2 * w] && t2[2 * w + 1] == t[2 * w + 1]);
                }
                if st <= j < en {
                    let w = c as int / 2;
                    assert(t2[2 * w] == st && t2[2 * w + 1] == en);
                }
                if in_swapped_range(t2, j) {
                    let w = choose|w: int|
                        0 <= w && 2 * w + 1 < t2.len() && t2[2 * w] <= j < #[trigger] t2[2 * w + 1];
                    if 2 * w + 1 < c {
                        assert(t[2 * w] == t2[2 * w] && t[2 * w + 1] == t2[2 * w + 1]);
                    } else {
                        assert(2 * w == c);
                    }
                }
                if in_swapped_range(t, j) {
                    let w = choose|w: int|
                        0 <= w && 2 * w + 1 < t.len() && t[2 * w] <= j < #[trigger] t[2 * w + 1];
                    assert(spts[2 * w + 1] <= spts[c as int]);
                }
            }
        }
        c = c + 2;
    }
    proof {
        let t = spts.take(c as int);
        assert forall|j: int| #[trigger] in_swapped_range(spts, j) implies j < min by {
            let w = choose|w: int|
                0 <= w && 2 * w + 1 < spts.len() && spts[2 * w] <= j < #[trigger] spts[2 * w + 1];
            assert(spts[2 * w] == spts[2 * w + 1] || spts[2 * w + 1] <= min);
        }
        assert forall|j: int| #[trigger] in_swapped_range(spts, j) == in_swapped_range(t, j) by {
            if in_swapped_range(spts, j) {
                let w = choose|w: int|
                    0 <= w && 2 * w + 1 < spts.len() && spts[2 * w] <= j < #[trigger] spts[2 * w + 1];
                assert(t[2 * w] == spts[2 * w] && t[2 * w + 1] == spts[2 * w + 1]);
            }
            if in_swapped_range(t, j) {
                let w = choose|w: int|
                    0 <= w && 2 * w + 1 < t.len() && t[2 * w] <= j < #[trigger] t[2 * w + 1];
                assert(t[2 * w] == spts[2 * w] && t[2 * w + 1] == spts[2 * w + 1]);
            }
        }
    }
}

/// K-point crossover loses no value: at every position both parents have, the children
/// hold the parents' two values, in one order or the other.
pub proof fn law_kpx_conserves<T>(
    o1: Seq<T>,
    o2: Seq<T>,
    xpoints: Seq<usize>,
    n1: Seq<T>,
    n2: Seq<T>,
    i: int,
)
    requires
        kpx_swapped(o1, o2, xpoints, n1, n2),
        0 <= i < min_len(o1, o2),
    ensures
        (n1[i] == o1[i] && n2[i] == o2[i]) || (n1[i] == o2[i] && n2[i] == o1[i]),
{
}

/// Crossing the children over again at the same points gives the parents back.
pub proof fn law_kpx_involution<T>(
    o1: Seq<T>,
    o2: Seq<T>,
    xpoints: Seq<usize>,
    n1: Seq<T>,
    n2: Seq<T>,
    m1: Seq<T>,
    m2: Seq<T>,
)
    requires
        kpx_swapped(o1, o2, xpoints, n1, n2),
        kpx_swapped(n1, n2, xpoints, m1, m2),
    ensures
        m1 == o1,
        m2 == o2,
{
    assert(min_len(n1, n2) == min_len(o1, o2));
    let pts = sorted_points(xpoints, min_len(o1, o2));
    assert(sorted_points(xpoints, min_len(n1, n2)) == pts);
    assert forall|i: int| 0 <= i < o1.len() implies m1[i] == o1[i] by {
        if i < min_len(o1, o2) && in_swapped_range(pts, i) {
            assert(n2[i] == o1[i]);
        } else {
            assert(n1[i] == o1[i]);
        }
    }
    assert forall|i: int| 0 <= i < o2.len() implies m2[i] == o2[i] by {
        if i < min_len(o1, o2) && in_swapped_range(pts, i) {
            assert(n1[i] == o2[i]);
        } else {
            assert(n2[i] == o2[i]);
        }
    }
    assert(m1 =~= o1);
    assert(m2 =~= o2);
}

/// Sorted points no larger than `min` make ranges that stay within `min`.
proof fn lemma_points_within(xpoints: Seq<usize>, min: usize)
    requires
        forall|i: int| 0 <= i < xpoints.len() ==> #[trigger] xpoints[i] <= min,
    ensures
        ranges_within(sorted_points(xpoints, min), min),
{
    lemma_point_le_total();
    let all = xpoints.push(min);
    all.lemma_sort_by_ensures(|a: usize, b: usize| point_le(a, b));
    let pts = sorted_points(xpoints, min);
    assert forall|c: int| 0 <= c && 2 * c + 1 < pts.len() implies pts[2 * c] == #[trigger] pts[2 * c
        + 1] || pts[2 * c + 1] <= min by {
        let x = pts[2 * c + 1];
        assert(pts.contains(x));
        assert(all.contains(x));
        let w = choose|w: int| 0 <= w < all.len() && all[w] == x;
        if w < xpoints.len() {
            assert(xpoints[w] <= min);
        }
    }
}

/// Random k-point crossover: `k` distinct points (all of them if `s1` is shorter) chosen at
/// random below the length of `s1`, then k-point crossover at those points. Which points
/// are chosen is left to chance.
pub fn crossover_kpx_rand<T: Copy>(s1: &mut Vec<T>, s2: &mut Vec<T>, k: usize)
    requires
        old(s1)@.len() <= old(s2)@.len(),
    ensures
        exists|xp: Seq<usize>|
            {
                &&& xp.no_duplicates()
                &&& xp.len() == if k < old(s1)@.len() {
                    k as int
                } else {
                    old(s1)@.len() as int
                }
                &&& forall|i: int| 0 <= i < xp.len() ==> #[trigger] xp[i] < old(s1)@.len()
                &&& kpx_swapped(old(s1)@, old(s2)@, xp, final(s1)@, final(s2)@)
            },
{
    let n = s1.len();
    let amount = if k < n {
        k
    } else {
        n
    };
    let xpoints = choose_positions(n, amount);
    proof {
        lemma_points_within(xpoints@, min_len(s1@, s2@));
    }
    crossover_kpx(s1, s2, xpoints.as_slice());
}

/// Uniform crossover with given coin flips: at each position both parents have, they swap
/// their values where the coin `coins[i]` is set.
pub fn crossover_ux_coins<T: Copy>(s1: &mut Vec<T>, s2: &mut Vec<T>, coins: &[bool])
    requires
        min_len(old(s1)@, old(s2)@) <= coins@.len(),
    ensures
        final(s1)@.len() == old(s1)@.len(),
        final(s2)@.len() == old(s2)@.len(),
        forall|i: int|
            0 <= i < old(s1)@.len() ==> #[trigger] final(s1)@[i] == if i < min_len(
                old(s1)@,
                old(s2)@,
            ) && coins@[i] {
                old(s2)@[i]
            } else {
                old(s1)@[i]
            },
        forall|i: int|
            0 <= i < old(s2)@.len() ==> #[trigger] final(s2)@[i] == if i < min_len(
                old(s1)@,
                old(s2)@,
            ) && coins@[i] {
                old(s1)@[i]
            } else {
                old(s2)@[i]
            },
{
    let min = if s1.len() < s2.len() {
        s1.len()
    } else {
        s2.len()
    };
    let ghost o1 = s1@;
    let ghost o2 = s2@;
    let mut i: usize = 0;
    while i < min
        invariant
            min == min_len(o1, o2),
            min <= coins@.len(),
            i <= min,
            s1@.len() == o1.len(),
            s2@.len() == o2.len(),
            forall|j: int|
                0 <= j < o1.len() ==> #[trigger] s1@[j] == if j < i && coins@[j] {
                    o2[j]
                } else {
                    o1[j]
                },
            forall|j: int|
                0 <= j < o2.len() ==> #[trigger] s2@[j] == if j < i && coins@[j] {
                    o1[j]
                } else {
                    o2[j]
                },
        decreases min - i,
    {
        if coins[i] {
            let a = s1[i];
            let b = s2[i];
            s1.set(i, b);
            s2.set(i, a);
        }
        i = i + 1;
    }
}

/// Uniform crossover: at each position both parents have, a coin flip decides whether they
/// swap their values. The flips are left to chance; past the shorter parent nothing moves.
pub fn crossover_ux<T: Copy>(s1: &mut Vec<T>, s2: &mut Vec<T>)
    ensures
        final(s1)@.len() == old(s1)@.len(),
        final(s2)@.len() == old(s2)@.len(),
        forall|i: int|
            0 <= i < min_len(old(s1)@, old(s2)@) ==> (#[trigger] final(s1)@[i] == old(s1)@[i]
                && final(s2)@[i] == old(s2)@[i]) || (final(s1)@[i] == old(s2)@[i]
                && final(s2)@[i] == old(s1)@[i]),
        forall|i: int|
            min_len(old(s1)@, old(s2)@) <= i < old(s1)@.len() ==> #[trigger] final(s1)@[i]
                == old(s1)@[i],
        forall|i: int|
            min_len(old(s1)@, old(s2)@) <= i < old(s2)@.len() ==> #[trigger] final(s2)@[i]
                == old(s2)@[i],
{
    let min = if s1.len() < s2.len() {
        s1.len()
    } else {
        s2.len()
    };
    let coins = coin_flips(min);
    crossover_ux_coins(s1, s2, coins.as_slice());
}

} // verus!
