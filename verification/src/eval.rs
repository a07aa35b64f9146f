use crate::layout::{format_kc_list, spec_kc_list};
use crate::model::{first_pos, lemma_first_pos, position, Model};
use crate::types::{kc_index, spec_kc_index, Kc};
use vstd::prelude::*;

verus! {

/// A candidate layout: the key at each position.
#[derive(Debug, Hash, Clone, PartialEq, Eq, PartialOrd)]
pub struct KeyState(pub Vec<Kc>);

impl KeyState {
    /// The keys written as a list, such as `[A, B, C]`.
    pub fn to_string(&self) -> (r: String)
        ensures
            r@ == spec_kc_list(self.0@),
    {
        format_kc_list(self.0.as_slice())
    }
}

impl std::ops::Deref for KeyState {
    type Target = Vec<Kc>;

    fn deref(&self) -> (r: &Vec<Kc>)
        ensures
            *r == self.0,
    {
        &self.0
    }
}

/// Two keys that belong next to each other: side by side (`horiz`, `a` on the left) or
/// one above the other (`a` above `b`, or either way round unless `ordered`).
#[derive(Debug, Clone, Copy, PartialEq, Eq)]
pub struct Constraint {
    pub a: Kc,
    pub b: Kc,
    pub horiz: bool,
    pub ordered: bool,
}

/// The placement constraints, in the order they are checked.
pub open spec fn spec_constraints() -> Seq<Constraint> {
    seq![
        Constraint { a: Kc::Comma, b: Kc::Dot, horiz: true, ordered: true },
        Constraint { a: Kc::DoubleQuote, b: Kc::Quote, horiz: false, ordered: false },
        Constraint { a: Kc::Asterisk, b: Kc::Ampersand, horiz: false, ordered: false },
        Constraint { a: Kc::Ampersand, b: Kc::Bar, horiz: false, ordered: false },
        Constraint { a: Kc::Minus, b: Kc::Plus, horiz: false, ordered: false },
    ]
}

/// The placement constraints: `,` then `.` side by side, and `"` with `'`, `*` with `&`,
/// `&` with `|`, `-` with `+` each one above the other.
pub fn constraints() -> (r: Vec<Constraint>)
    ensures
        r@ == spec_constraints(),
{
    let r = vec![
        Constraint { a: Kc::Comma, b: Kc::Dot, horiz: true, ordered: true },
        Constraint { a: Kc::DoubleQuote, b: Kc::Quote, horiz: false, ordered: false },
        Constraint { a: Kc::Asterisk, b: Kc::Ampersand, horiz: false, ordered: false },
        Constraint { a: Kc::Ampersand, b: Kc::Bar, horiz: false, ordered: false },
        Constraint { a: Kc::Minus, b: Kc::Plus, horiz: false, ordered: false },
    ];
    proof {
        assert(r@ =~= spec_constraints());
    }
    r
}

/// The model can tell, for constraint `c`, what lies below the positions of its keys in `s`.
pub open spec fn constraint_readable(model: Model, s: Seq<Kc>, c: Constraint) -> bool {
    let ap = first_pos(s, c.a);
    let bp = first_pos(s, c.b);
    ap >= 0 && bp >= 0 && !c.horiz ==> model.below_readable(ap) && model.below_readable(bp)
}

/// Whether layout `s` breaks constraint `c`. A constraint on a key that `s` lacks holds.
pub open spec fn violates(model: Model, s: Seq<Kc>, c: Constraint) -> bool {
    let ap = first_pos(s, c.a);
    let bp = first_pos(s, c.b);
    if ap < 0 || bp < 0 {
        false
    } else {
        let ab = if c.horiz {
            ap + 1 == bp
        } else {
            model.spec_key_below(ap) == Some(bp)
        };
        let ba = if c.horiz {
            bp + 1 == ap
        } else {
            model.spec_key_below(bp) == Some(ap)
        };
        (!ba || c.ordered) && !ab
    }
}

/// How many of the first `n` constraints of `cs` layout `s` breaks.
pub open spec fn violations_upto(model: Model, s: Seq<Kc>, cs: Seq<Constraint>, n: int) -> int
    decreases n,
{
    if n <= 0 {
        0
    } else {
        violations_upto(model, s, cs, n - 1) + if violates(model, s, cs[n - 1]) {
            1int
        } else {
            0int
        }
    }
}

/// Whether layout `s` breaks constraint `c`.
pub fn violated(model: &Model, s: &[Kc], c: Constraint) -> (r: bool)
    requires
        constraint_readable(*model, s@, c),
    ensures
        r == violates(*model, s@, c),
{
    let n = s.len();
    let apos = position(s, c.a);
    let bpos = position(s, c.b);
    match (apos, bpos) {
        (Some(apos), Some(bpos)) => {
            let ab;
            let ba;
            if c.horiz {
                ab = apos + 1 == bpos;
                ba = bpos + 1 == apos;
            } else {
                let abelow = model.key_below(apos);
                let bbelow = model.key_below(bpos);
                ab = match abelow {
                    Some(abelow) => abelow == bpos,
                    None => false,
                };
                ba = match bbelow {
                    Some(bbelow) => bbelow == apos,
                    None => false,
                };
            }
            (!ba || c.ordered) && !ab
        },
        _ => false,
    }
}

/// How many of the placement constraints layout `s` breaks; each costs a penalty.
pub fn num_violations(model: &Model, s: &[Kc]) -> (r: u64)
    requires
        forall|i: int|
            0 <= i < spec_constraints().len() ==> constraint_readable(
                *model,
                s@,
                #[trigger] spec_constraints()[i],
            ),
    ensures
        r == violations_upto(*model, s@, spec_constraints(), spec_constraints().len() as int),
{
    let cs = constraints();
    let mut count: u64 = 0;
    let mut i: usize = 0;
    while i < cs.len()
        invariant
            cs@ == spec_constraints(),
            i <= cs@.len(),
            forall|j: int|
                0 <= j < spec_constraints().len() ==> constraint_readable(
                    *model,
                    s@,
                    #[trigger] spec_constraints()[j],
                ),
            count == violations_upto(*model, s@, cs@, i as int),
            count <= i,
        decreases cs.len() - i,
    {
        if violated(model, s, cs[i]) {
            count = count + 1;
        }
        i = i + 1;
    }
    count
}

/// How many of the first `n` fixed positions hold another key in `s`.
pub open spec fn mismatches_upto(fixed: Seq<Kc>, s: Seq<Kc>, n: int) -> int
    decreases n,
{
    if n <= 0 {
        0
    } else {
        mismatches_upto(fixed, s, n - 1) + if fixed[n - 1] != Kc::No && fixed[n - 1] != s[n - 1] {
            1int
        } else {
            0int
        }
    }
}

/// How many fixed keys layout `s` has moved away; each costs a penalty.
pub fn num_fixed_mismatches(model: &Model, s: &[Kc]) -> (r: u64)
    requires
        forall|i: int|
            0 <= i < model.fixed@.len() && #[trigger] model.fixed@[i] != Kc::No ==> i < s@.len(),
    ensures
        r == mismatches_upto(model.fixed@, s@, model.fixed@.len() as int),
{
    let mut count: u64 = 0;
    let mut i: usize = 0;
    while i < model.fixed.len()
        invariant
            i <= model.fixed@.len(),
            forall|j: int|
                0 <= j < model.fixed@.len() && #[trigger] model.fixed@[j] != Kc::No ==> j < s@.len(),
            count == mismatches_upto(model.fixed@, s@, i as int),
            count <= i,
        decreases model.fixed.len() - i,
    {
        let kc = model.fixed[i];
        if kc != Kc::No && kc != s[i] {
            count = count + 1;
        }
        i = i + 1;
    }
    count
}

/// The absolute difference of the numbers of two key codes.
pub open spec fn kc_gap(a: Kc, b: Kc) -> int {
    let d = spec_kc_index(a) - spec_kc_index(b);
    if d < 0 {
        -d
    } else {
        d
    }
}

/// The sum over the first `n` positions of the gaps between the key codes of `s1` and `s2`.
pub open spec fn distance_upto(s1: Seq<Kc>, s2: Seq<Kc>, n: int) -> int
    decreases n,
{
    if n <= 0 {
        0
    } else {
        distance_upto(s1, s2, n - 1) + kc_gap(s1[n - 1], s2[n - 1])
    }
}

/// How far apart two layouts are: the sum, over the positions of `s1`, of the gaps
/// between the numbers of the key codes each holds there.
pub fn key_distance(s1: &[Kc], s2: &[Kc]) -> (r: u128)
    requires
        s1@.len() <= s2@.len(),
    ensures
        r == distance_upto(s1@, s2@, s1@.len() as int),
{
    let mut d: u128 = 0;
    let mut i: usize = 0;
    while i < s1.len()
        invariant
            i <= s1@.len(),
            s1@.len() <= s2@.len(),
            d == distance_upto(s1@, s2@, i as int),
            d <= 256 * i,
            i <= usize::MAX,
        decreases s1.len() - i,
    {
        let a = kc_index(s1[i]);
        let b = kc_index(s2[i]);
        proof {
            crate::types::lemma_kc_index(s1@[i as int]);
            crate::types::lemma_kc_index(s2@[i as int]);
        }
        let g: u128 = if a < b {
            (b - a) as u128
        } else {
            (a - b) as u128
        };
        d = d + g;
        i = i + 1;
    }
    d
}

/// Layouts of one size are as far from each other either way round.
pub proof fn law_distance_symmetric(s1: Seq<Kc>, s2: Seq<Kc>, n: int)
    requires
        0 <= n,
    ensures
        distance_upto(s1, s2, n) == distance_upto(s2, s1, n),
    decreases n,
{
    if n > 0 {
        law_distance_symmetric(s1, s2, n - 1);
    }
}

/// A layout is at distance zero from itself.
pub proof fn law_distance_self_zero(s: Seq<Kc>, n: int)
    requires
        0 <= n,
    ensures
        distance_upto(s, s, n) == 0,
    decreases n,
{
    if n > 0 {
        law_distance_self_zero(s, n - 1);
    }
}

/// The distance is zero exactly when the layouts agree on every position counted.
pub proof fn law_distance_zero_iff_equal(s1: Seq<Kc>, s2: Seq<Kc>, n: int)
    requires
        0 <= n <= s1.len(),
        n <= s2.len(),
    ensures
        distance_upto(s1, s2, n) == 0 <==> forall|i: int| 0 <= i < n ==> s1[i] == s2[i],
    decreases n,
{
    if n > 0 {
        law_distance_zero_iff_equal(s1, s2, n - 1);
        lemma_distance_nonneg(s1, s2, n - 1);
        if spec_kc_index(s1[n - 1]) == spec_kc_index(s2[n - 1]) {
            crate::types::lemma_kc_index_injective(s1[n - 1], s2[n - 1]);
        }
    }
}

proof fn lemma_distance_nonneg(s1: Seq<Kc>, s2: Seq<Kc>, n: int)
    requires
        0 <= n,
    ensures
        distance_upto(s1, s2, n) >= 0,
    decreases n,
{
    if n > 0 {
        lemma_distance_nonneg(s1, s2, n - 1);
    }
}

/// Whether position `i` lies right below position `v` in `model`: one row lower, on the same
/// hand and the same finger.
proof fn lemma_key_below_is_below(model: Model, v: int)
    ensures
        model.spec_key_below(v) matches Some(i) ==> 0 <= i < model.row@.len() && model.row@[i] == model.row@[v]
            - 1 && model.hand@[i] == model.hand@[v] && model.finger@[i] == model.finger@[v],
{
    if exists|i: int| 0 <= i < model.row@.len() && model.below(i, v) {
        let i = choose|i: int| 0 <= i < model.row@.len() && model.below(i, v);
        lemma_least_below(model, v, i);
        let m = choose|m: int| 0 <= m <= i && model.below(m, v) && forall|j: int| 0 <= j < m ==> !model.below(j, v);
        model.lemma_spec_key_below(v, m);
    }
}

/// Some position at or before `i` is the first one right below `v`.
proof fn lemma_least_below(model: Model, v: int, i: int)
    requires
        0 <= i < model.row@.len(),
        model.below(i, v),
    ensures
        exists|m: int| 0 <= m <= i && model.below(m, v) && forall|j: int| 0 <= j < m ==> !model.below(j, v),
    decreases i,
{
    if exists|j: int| 0 <= j < i && model.below(j, v) {
        let j = choose|j: int| 0 <= j < i && model.below(j, v);
        lemma_least_below(model, v, j);
    } else {
        assert(0 <= i <= i && model.below(i, v) && forall|j: int| 0 <= j < i ==> !model.below(j, v));
    }
}

/// Constraint `c` on the keys at positions `ap` and `bp` (each the first position of its key
/// in `s`) holds, for side-by-side keys, only when `b` is just right of `a` (or, unordered,
/// just left of it); and, for keys one above the other, only when one of them lies right
/// below the other: one row lower, on the same hand and finger (`b` below `a`, or, unordered,
/// either way). So keys on different hands or fingers always break a vertical constraint.
/// Conversely `b` just right of `a`, or `b` the first position below `a`, keeps it, and so
/// does the reverse placement when the constraint is unordered.
pub proof fn law_violates(model: Model, s: Seq<Kc>, c: Constraint, ap: int, bp: int)
    requires
        0 <= ap < s.len(),
        0 <= bp < s.len(),
        s[ap] == c.a,
        s[bp] == c.b,
        forall|j: int| 0 <= j < ap ==> s[j] != c.a,
        forall|j: int| 0 <= j < bp ==> s[j] != c.b,
    ensures
        c.horiz && !violates(model, s, c) ==> bp == ap + 1 || (!c.ordered && ap == bp + 1),
        c.horiz && bp == ap + 1 ==> !violates(model, s, c),
        !c.horiz && !violates(model, s, c) ==> {
            ||| (model.row@[bp] == model.row@[ap] - 1 && model.hand@[bp] == model.hand@[ap]
                && model.finger@[bp] == model.finger@[ap])
            ||| (!c.ordered && model.row@[ap] == model.row@[bp] - 1 && model.hand@[ap] == model.hand@[bp]
                && model.finger@[ap] == model.finger@[bp])
        },
        !c.horiz && (model.hand@[ap] != model.hand@[bp] || model.finger@[ap] != model.finger@[bp])
            ==> violates(model, s, c),
        !c.horiz && bp < model.row@.len() && model.row@[bp] == model.row@[ap] - 1 && model.hand@[bp]
            == model.hand@[ap] && model.finger@[bp] == model.finger@[ap] && (forall|j: int|
            0 <= j < bp ==> !model.below(j, ap)) ==> !violates(model, s, c),
        c.horiz && !c.ordered && ap == bp + 1 ==> !violates(model, s, c),
        !c.horiz && !c.ordered && ap < model.row@.len() && model.row@[ap] == model.row@[bp] - 1
            && model.hand@[ap] == model.hand@[bp] && model.finger@[ap] == model.finger@[bp] && (forall|j: int|
            0 <= j < ap ==> !model.below(j, bp)) ==> !violates(model, s, c),
{
    lemma_first_pos(s, c.a, ap);
    lemma_first_pos(s, c.b, bp);
    lemma_key_below_is_below(model, ap);
    lemma_key_below_is_below(model, bp);
    if !c.horiz && bp < model.row@.len() && model.row@[bp] == model.row@[ap] - 1 && model.hand@[bp]
        == model.hand@[ap] && model.finger@[bp] == model.finger@[ap] && (forall|j: int|
        0 <= j < bp ==> !model.below(j, ap)) {
        model.lemma_spec_key_below(ap, bp);
    }
    if !c.horiz && !c.ordered && ap < model.row@.len() && model.row@[ap] == model.row@[bp] - 1
        && model.hand@[ap] == model.hand@[bp] && model.finger@[ap] == model.finger@[bp] && (forall|j: int|
        0 <= j < ap ==> !model.below(j, bp)) {
        model.lemma_spec_key_below(bp, ap);
    }
}

/// A constraint on a key that the layout lacks holds.
pub proof fn law_violates_missing(model: Model, s: Seq<Kc>, c: Constraint)
    requires
        !s.contains(c.a) || !s.contains(c.b),
    ensures
        !violates(model, s, c),
{
    if !s.contains(c.a) {
        assert(!(exists|i: int| 0 <= i < s.len() && s[i] == c.a));
    } else {
        assert(!(exists|i: int| 0 <= i < s.len() && s[i] == c.b));
    }
}

/// The number of broken constraints among the first `n` is at most `n`, is zero exactly when
/// none of them is broken, and is `n` exactly when all are.
#[verifier::spinoff_prover]
#[verifier::rlimit(40)]
pub proof fn law_violations_count(model: Model, s: Seq<Kc>, cs: Seq<Constraint>, n: int)
    requires
        0 <= n <= cs.len(),
    ensures
        0 <= violations_upto(model, s, cs, n) <= n,
        violations_upto(model, s, cs, n) == 0 <==> forall|i: int| 0 <= i < n ==> !violates(model, s, #[trigger] cs[i]),
        violations_upto(model, s, cs, n) == n <==> forall|i: int| 0 <= i < n ==> violates(model, s, #[trigger] cs[i]),
    decreases n,
{
    if n > 0 {
        law_violations_count(model, s, cs, n - 1);
        if violations_upto(model, s, cs, n) == 0 {
            assert forall|i: int| 0 <= i < n implies !violates(model, s, #[trigger] cs[i]) by {
                if i < n - 1 {
                    assert(violations_upto(model, s, cs, n - 1) == 0);
                }
            }
        }
        if violations_upto(model, s, cs, n) == n {
            assert forall|i: int| 0 <= i < n implies violates(model, s, #[trigger] cs[i]) by {
                if i < n - 1 {
                    assert(violations_upto(model, s, cs, n - 1) == n - 1);
                }
            }
        }
    }
}

} // verus!
