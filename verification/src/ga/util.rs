use crate::ga::ops::util::{choose_position, choose_positions, coin_flips};
use crate::ga::ops::crossover::{
    increasing, lemma_increasing_sorted, lemma_point_le_total, min_len, point_le, sort_points,
    sorted_points,
};
use vstd::prelude::*;
use vstd::std_specs::cmp::PartialEqSpec;

verus! {

broadcast use vstd::seq_lib::group_to_multiset_ensures;

/// How many of the first `n` positions of `s1` and `s2` hold values that differ.
pub open spec fn differing_upto<T: PartialEq>(s1: Seq<T>, s2: Seq<T>, n: int) -> int
    decreases n,
{
    if n <= 0 {
        0
    } else {
        differing_upto(s1, s2, n - 1) + if s1[n - 1].eq_spec(&s2[n - 1]) {
            0int
        } else {
            1int
        }
    }
}

/// The number of positions where `s1` and `s2` differ, a position that only one of
/// them has counting as a difference.
pub open spec fn spec_count_different<T: PartialEq>(s1: Seq<T>, s2: Seq<T>) -> int {
    let min = if s1.len() < s2.len() { s1.len() } else { s2.len() };
    let max = if s1.len() < s2.len() { s2.len() } else { s1.len() };
    (max - min) + differing_upto(s1, s2, min as int)
}

/// The number of positions where `s1` and `s2` differ; the positions past the end of the
/// shorter one all count as different.
pub fn count_different<T: PartialEq>(s1: &[T], s2: &[T]) -> (r: usize)
    ensures
        T::obeys_eq_spec() ==> r == spec_count_different(s1@, s2@),
        (if s1@.len() < s2@.len() { s2@.len() - s1@.len() } else { s1@.len() - s2@.len() }) <= r,
        r <= if s1@.len() < s2@.len() { s2@.len() } else { s1@.len() },
{
    let min = if s1.len() < s2.len() { s1.len() } else { s2.len() };
    let max = if s1.len() < s2.len() { s2.len() } else { s1.len() };
    let mut count: usize = max - min;
    let mut i: usize = 0;
    while i < min
        invariant
            min <= s1@.len(),
            min <= s2@.len(),
            min == if s1@.len() < s2@.len() { s1@.len() } else { s2@.len() },
            max == if s1@.len() < s2@.len() { s2@.len() } else { s1@.len() },
            i <= min,
            max - min <= count <= max - min + i,
            T::obeys_eq_spec() ==> count == (max - min) + differing_upto(s1@, s2@, i as int),
        decreases min - i,
    {
        if s1[i] != s2[i] {
            count = count + 1;
        }
        i = i + 1;
    }
    count
}

/// Combining two fitnesses: the unit is the least power of ten from `u` up that reaches
/// `max_next`, `u` being a power of ten.
pub open spec fn unit_from(u: nat, max_next: nat) -> nat
    decreases (if u < max_next { max_next - u } else { 0 }),
{
    if u == 0 || u >= max_next {
        u
    } else {
        unit_from(u * 10, max_next)
    }
}

/// The least power of ten that is at least `max_next`.
pub open spec fn unit_for(max_next: nat) -> nat {
    unit_from(1, max_next)
}

/// `unit_from` reaches `max_next` and grows from `u`.
pub proof fn lemma_unit_from(u: nat, max_next: nat)
    requires
        u >= 1,
    ensures
        unit_from(u, max_next) >= max_next,
        unit_from(u, max_next) >= u,
    decreases (if u < max_next { max_next - u } else { 0 }),
{
    if u < max_next {
        lemma_unit_from(u * 10, max_next);
    }
}

/// `cur_fitness` and `next` combined so that `cur_fitness` decides first and `next`, which
/// is at most `max_next`, breaks ties.
pub open spec fn spec_combine_fitness(cur_fitness: nat, next: nat, max_next: nat) -> nat {
    cur_fitness * unit_for(max_next) * 10 + next
}

/// Combines `cur_fitness` with `next` (at most `max_next`): `cur_fitness` shifted left
/// by enough decimal digits to hold `next`, plus `next`.
pub fn combine_fitness(cur_fitness: u128, next: u128, max_next: u128) -> (r: u128)
    requires
        unit_for(max_next as nat) <= u128::MAX,
        spec_combine_fitness(cur_fitness as nat, next as nat, max_next as nat) <= u128::MAX,
    ensures
        r == spec_combine_fitness(cur_fitness as nat, next as nat, max_next as nat),
{
    let mut unit: u128 = 1;
    while unit < max_next
        invariant
            unit >= 1,
            unit_from(unit as nat, max_next as nat) == unit_for(max_next as nat),
            unit_for(max_next as nat) <= u128::MAX,
        decreases (if unit < max_next { max_next - unit } else { 0 }),
    {
        proof {
            lemma_unit_from((unit * 10) as nat, max_next as nat);
        }
        unit = unit * 10;
    }
    proof {
        assert(unit == unit_for(max_next as nat));
        assert(cur_fitness * unit <= cur_fitness * unit * 10) by (nonlinear_arith)
            requires
                unit >= 1,
        ;
    }
    cur_fitness * unit * 10 + next
}

/// Combining fitnesses orders lexicographically: a larger first fitness always wins,
/// whatever the tie-breakers, as long as they are at most `max_next`.
pub proof fn law_combine_fitness_lexicographic(
    cur1: nat,
    next1: nat,
    cur2: nat,
    next2: nat,
    max_next: nat,
)
    requires
        cur1 < cur2,
        next1 <= max_next,
        next2 <= max_next,
    ensures
        spec_combine_fitness(cur1, next1, max_next) < spec_combine_fitness(cur2, next2, max_next),
{
    lemma_unit_from(1, max_next);
    let u = unit_for(max_next);
    assert(cur1 * u * 10 + u * 10 <= cur2 * u * 10) by (nonlinear_arith)
        requires
            cur1 < cur2,
            u >= 1,
    ;
}

/// Combining fitnesses keeps the tie-breaker's order when the first fitnesses are equal.
pub proof fn law_combine_fitness_tie(cur: nat, next1: nat, next2: nat, max_next: nat)
    requires
        next1 < next2,
    ensures
        spec_combine_fitness(cur, next1, max_next) < spec_combine_fitness(cur, next2, max_next),
{
}

/// Combines `cur_fitness` with a cost `next` (at most `max_next`): the lower the cost,
/// the higher the combined fitness.
pub fn combine_cost(cur_fitness: u128, next: u128, max_next: u128) -> (r: u128)
    requires
        next <= max_next,
        unit_for(max_next as nat) <= u128::MAX,
        spec_combine_fitness(cur_fitness as nat, (max_next - next) as nat, max_next as nat)
            <= u128::MAX,
    ensures
        r == spec_combine_fitness(cur_fitness as nat, (max_next - next) as nat, max_next as nat),
{
    combine_fitness(cur_fitness, max_next - next, max_next)
}

/// `n`, or `len` if that is smaller.
pub open spec fn clamp(n: int, len: int) -> int {
    if n < len {
        n
    } else {
        len
    }
}

/// The values of `x` from position `from` up to position `to`, as far as `x` reaches.
pub open spec fn segment<T>(x: Seq<T>, from: int, to: int) -> Seq<T> {
    x.subrange(clamp(from, x.len() as int), clamp(to, x.len() as int))
}

/// The first child of a k-point crossover after the first `k` ranges `[pts[j], pts[j + 1])`:
/// even ranges are taken from `a`, odd ones from `b`.
pub open spec fn kpx_child<T>(a: Seq<T>, b: Seq<T>, pts: Seq<usize>, k: int) -> Seq<T>
    decreases k,
{
    if k <= 0 {
        Seq::empty()
    } else {
        kpx_child(a, b, pts, k - 1) + segment(
            if (k - 1) % 2 == 0 {
                a
            } else {
                b
            },
            pts[k - 1] as int,
            pts[k] as int,
        )
    }
}

/// The first child of a k-point crossover of `a` and `b` at the sorted points `pts` (the
/// first of which is 0): the ranges between points alternate between `a` and `b`, and the
/// last range runs to the end of the parent it is taken from.
pub open spec fn spec_kpx<T>(a: Seq<T>, b: Seq<T>, pts: Seq<usize>) -> Seq<T> {
    let w = pts.len() - 1;
    kpx_child(a, b, pts, w) + segment(
        if w % 2 == 0 {
            a
        } else {
            b
        },
        pts[w] as int,
        if w % 2 == 0 {
            a.len() as int
        } else {
            b.len() as int
        },
    )
}

/// Appends `x[from..to]`, as far as `x` reaches, to `out`.
fn append_segment<T: Copy>(out: &mut Vec<T>, x: &[T], from: usize, to: usize)
    requires
        clamp(from as int, x@.len() as int) <= clamp(to as int, x@.len() as int),
    ensures
        final(out)@ == old(out)@ + segment(x@, from as int, to as int),
{
    let len = x.len();
    let st = if from < len {
        from
    } else {
        len
    };
    let en = if to < len {
        to
    } else {
        len
    };
    let ghost o = out@;
    let mut i: usize = st;
    while i < en
        invariant
            st <= i <= en,
            en <= x@.len(),
            out@ == o + x@.subrange(st as int, i as int),
        decreases en - i,
    {
        out.push(x[i]);
        proof {
            assert(x@.subrange(st as int, i + 1) =~= x@.subrange(st as int, i as int).push(
                x@[i as int],
            ));
        }
        i = i + 1;
    }
}

/// K-point crossover of two sequences: with 0 added to `xpoints` and the points sorted,
/// the children take the ranges between consecutive points alternately from one parent
/// and the other, the first child starting with `s1` and the second with `s2`; the last
/// range runs to the end of the parent it comes from.
pub fn crossover_kpx<T: Copy>(s1: &[T], s2: &[T], xpoints: &[usize]) -> (r: (Vec<T>, Vec<T>))
    ensures
        r.0@ == spec_kpx(s1@, s2@, sorted_points(xpoints@, 0)),
        r.1@ == spec_kpx(s2@, s1@, sorted_points(xpoints@, 0)),
{
    let mut points: Vec<usize> = Vec::new();
    let mut k: usize = 0;
    while k < xpoints.len()
        invariant
            k <= xpoints@.len(),
            points@ == xpoints@.take(k as int),
        decreases xpoints.len() - k,
    {
        points.push(xpoints[k]);
        proof {
            assert(xpoints@.take(k as int + 1) =~= xpoints@.take(k as int).push(xpoints@[k as int]));
        }
        k = k + 1;
    }
    proof {
        assert(xpoints@.take(xpoints@.len() as int) =~= xpoints@);
    }
    points.push(0);
    let pts = sort_points(&points);
    let ghost spts = sorted_points(xpoints@, 0);
    proof {
        lemma_point_le_total();
        lemma_increasing_sorted(pts@);
        points@.lemma_sort_by_ensures(|a: usize, b: usize| point_le(a, b));
        vstd::seq_lib::lemma_sorted_unique(pts@, spts, |a: usize, b: usize| point_le(a, b));
        vstd::seq_lib::to_multiset_len(pts@);
        vstd::seq_lib::to_multiset_len(points@);
        assert(pts@.len() == points@.len());
    }
    let mut o1: Vec<T> = Vec::new();
    let mut o2: Vec<T> = Vec::new();
    let mut w: usize = 0;
    while w < pts.len() - 1
        invariant
            pts@ == spts,
            pts@.len() >= 1,
            increasing(spts),
            w + 1 <= pts@.len(),
            o1@ == kpx_child(s1@, s2@, spts, w as int),
            o2@ == kpx_child(s2@, s1@, spts, w as int),
        decreases pts.len() - w,
    {
        let prev = pts[w];
        let cur = pts[w + 1];
        if w % 2 == 0 {
            append_segment(&mut o1, s1, prev, cur);
            append_segment(&mut o2, s2, prev, cur);
        } else {
            append_segment(&mut o1, s2, prev, cur);
            append_segment(&mut o2, s1, prev, cur);
        }
        w = w + 1;
    }
    let last = pts[w];
    if w % 2 == 0 {
        append_segment(&mut o1, s1, last, s1.len());
        append_segment(&mut o2, s2, last, s2.len());
    } else {
        append_segment(&mut o1, s2, last, s2.len());
        append_segment(&mut o2, s1, last, s1.len());
    }
    (o1, o2)
}

/// Random k-point crossover of two sequences: `k` distinct points (all of them if `s1` is
/// shorter) chosen at random below the length of `s1`, then k-point crossover at those
/// points. Which points are chosen is left to chance.
pub fn crossover_kpx_rand<T: Copy>(s1: &[T], s2: &[T], k: usize) -> (r: (Vec<T>, Vec<T>))
    ensures
        exists|xp: Seq<usize>|
            {
                &&& xp.no_duplicates()
                &&& xp.len() == if k < s1@.len() {
                    k as int
                } else {
                    s1@.len() as int
                }
                &&& forall|i: int| 0 <= i < xp.len() ==> #[trigger] xp[i] < s1@.len()
                &&& r.0@ == spec_kpx(s1@, s2@, sorted_points(xp, 0))
                &&& r.1@ == spec_kpx(s2@, s1@, sorted_points(xp, 0))
            },
{
    let n = s1.len();
    let amount = if k < n {
        k
    } else {
        n
    };
    let xpoints = choose_positions(n, amount);
    crossover_kpx(s1, s2, xpoints.as_slice())
}

/// Uniform crossover of two sequences with given coin flips: the children are as long as
/// the shorter parent; where `coins[i]` is set, the first child takes `s1[i]` and the
/// second `s2[i]`, otherwise the other way round.
pub fn crossover_ux_coins<T: Copy>(s1: &[T], s2: &[T], coins: &[bool]) -> (r: (Vec<T>, Vec<T>))
    requires
        min_len(s1@, s2@) <= coins@.len(),
    ensures
        r.0@.len() == min_len(s1@, s2@),
        r.1@.len() == min_len(s1@, s2@),
        forall|i: int|
            0 <= i < min_len(s1@, s2@) ==> #[trigger] r.0@[i] == if coins@[i] {
                s1@[i]
            } else {
                s2@[i]
            },
        forall|i: int|
            0 <= i < min_len(s1@, s2@) ==> #[trigger] r.1@[i] == if coins@[i] {
                s2@[i]
            } else {
                s1@[i]
            },
{
    let min = if s1.len() < s2.len() {
        s1.len()
    } else {
        s2.len()
    };
    let mut o1: Vec<T> = Vec::new();
    let mut o2: Vec<T> = Vec::new();
    let mut i: usize = 0;
    while i < min
        invariant
            min == min_len(s1@, s2@),
            min <= coins@.len(),
            i <= min,
            o1@.len() == i,
            o2@.len() == i,
            forall|j: int|
                0 <= j < i ==> #[trigger] o1@[j] == if coins@[j] {
                    s1@[j]
                } else {
                    s2@[j]
                },
            forall|j: int|
                0 <= j < i ==> #[trigger] o2@[j] == if coins@[j] {
                    s2@[j]
                } else {
                    s1@[j]
                },
        decreases min - i,
    {
        if coins[i] {
            o1.push(s1[i]);
            o2.push(s2[i]);
        } else {
            o1.push(s2[i]);
            o2.push(s1[i]);
        }
        i = i + 1;
    }
    (o1, o2)
}

/// Uniform crossover of two sequences: the children are as long as the shorter parent, and
/// at each position a coin flip decides which child takes which parent's value. The flips
/// are left to chance.
pub fn crossover_ux<T: Copy>(s1: &[T], s2: &[T]) -> (r: (Vec<T>, Vec<T>))
    ensures
        r.0@.len() == min_len(s1@, s2@),
        r.1@.len() == min_len(s1@, s2@),
        forall|i: int|
            0 <= i < min_len(s1@, s2@) ==> (#[trigger] r.0@[i] == s1@[i] && r.1@[i] == s2@[i])
                || (r.0@[i] == s2@[i] && r.1@[i] == s1@[i]),
{
    let min = if s1.len() < s2.len() {
        s1.len()
    } else {
        s2.len()
    };
    let coins = coin_flips(min);
    crossover_ux_coins(s1, s2, coins.as_slice())
}

/// `s` with the value at one position chosen at random replaced by `v`; `s` itself when it
/// is empty. Which position is chosen is left to chance.
pub fn replace_rand<T: Copy>(s: &[T], v: T) -> (r: Vec<T>)
    ensures
        s@.len() == 0 ==> r@ == s@,
        s@.len() > 0 ==> exists|i: int| 0 <= i < s@.len() && r@ == s@.update(i, v),
{
    let mut o: Vec<T> = Vec::new();
    let mut i: usize = 0;
    while i < s.len()
        invariant
            i <= s@.len(),
            o@ == s@.take(i as int),
        decreases s.len() - i,
    {
        o.push(s[i]);
        proof {
            assert(s@.take(i as int + 1) =~= s@.take(i as int).push(s@[i as int]));
        }
        i = i + 1;
    }
    proof {
        assert(s@.take(s@.len() as int) =~= s@);
    }
    match choose_position(o.len()) {
        Some(p) => {
            o.set(p, v);
        },
        None => {},
    }
    o
}

} // verus!
