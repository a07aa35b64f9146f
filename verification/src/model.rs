use crate::ga::ops::util::{str_to_vec, vec_to_str};
use crate::text::{trim_end, trimmed_len};
use crate::types::{kc_name, spec_kc_name, Kc};
use vstd::prelude::*;

verus! {

/// The geometry of a keyboard: where each position is, which keys may be placed, and
/// which positions hold a key that must not move.
#[derive(Debug, Clone, Default, PartialEq)]
pub struct Model {
    /// Format string for printing layouts: each `X` stands for the next key.
    pub layout: String,
    /// The keys that can be placed.
    pub universe: Vec<Kc>,
    /// The key fixed at each position, `Kc::No` where the position is free.
    pub fixed: Vec<Kc>,
    pub row: Vec<i32>,
    pub hand: Vec<i32>,
    pub finger: Vec<i32>,
}

/// Whether position `i` is right below position `v`: one row lower, same hand, same finger.
pub open spec fn is_below(row: Seq<i32>, hand: Seq<i32>, finger: Seq<i32>, i: int, v: int) -> bool {
    &&& row[i] == row[v] - 1
    &&& hand[i] == hand[v]
    &&& finger[i] == finger[v]
}

/// The keys of `inp`, among its first `n`, whose position is free, in order.
pub open spec fn unfixed_upto(inp: Seq<Kc>, fixed: Seq<Kc>, n: int) -> Seq<Kc>
    decreases n,
{
    if n <= 0 {
        Seq::empty()
    } else {
        let p = unfixed_upto(inp, fixed, n - 1);
        if fixed[n - 1] == Kc::No {
            p.push(inp[n - 1])
        } else {
            p
        }
    }
}

/// The keys of `inp` whose position is free, in order.
pub open spec fn spec_without_fixed(inp: Seq<Kc>, fixed: Seq<Kc>) -> Seq<Kc> {
    unfixed_upto(inp, fixed, inp.len() as int)
}

/// How many of the first `n` positions are free.
pub open spec fn free_before(fixed: Seq<Kc>, n: int) -> int
    decreases n,
{
    if n <= 0 {
        0
    } else {
        free_before(fixed, n - 1) + if fixed[n - 1] == Kc::No {
            1int
        } else {
            0int
        }
    }
}

/// The key at position `i` once the free positions are filled from `inp` in order.
pub open spec fn with_fixed_at(inp: Seq<Kc>, fixed: Seq<Kc>, i: int) -> Kc {
    if fixed[i] == Kc::No {
        inp[free_before(fixed, i)]
    } else {
        fixed[i]
    }
}

/// The first `n` positions, the free ones filled from `inp` in order, the others holding
/// their fixed key.
pub open spec fn spec_with_fixed(inp: Seq<Kc>, fixed: Seq<Kc>, n: int) -> Seq<Kc> {
    Seq::new(n as nat, |i: int| with_fixed_at(inp, fixed, i))
}

/// How many of the first `n` characters of `layout` are `X`.
pub open spec fn x_count(layout: Seq<char>, n: int) -> int
    decreases n,
{
    if n <= 0 {
        0
    } else {
        x_count(layout, n - 1) + if layout[n - 1] == 'X' {
            1int
        } else {
            0int
        }
    }
}

/// The first `n` characters of `layout`, each `X` replaced by the next key of `l`.
pub open spec fn format_upto(layout: Seq<char>, l: Seq<Kc>, n: int) -> Seq<char>
    decreases n,
{
    if n <= 0 {
        Seq::empty()
    } else {
        format_upto(layout, l, n - 1) + if layout[n - 1] == 'X' {
            spec_kc_name(l[x_count(layout, n - 1)])
        } else {
            seq![layout[n - 1]]
        }
    }
}

/// `layout` with each `X` replaced by the next key of `l`, trailing whitespace removed.
pub open spec fn spec_format(layout: Seq<char>, l: Seq<Kc>) -> Seq<char> {
    trim_end(format_upto(layout, l, layout.len() as int))
}

/// `free_before` counts at most the positions it looks at.
pub proof fn lemma_free_before_bound(fixed: Seq<Kc>, n: int)
    requires
        0 <= n,
    ensures
        0 <= free_before(fixed, n) <= n,
    decreases n,
{
    if n > 0 {
        lemma_free_before_bound(fixed, n - 1);
    }
}

/// `free_before` does not decrease.
pub proof fn lemma_free_before_mono(fixed: Seq<Kc>, m: int, n: int)
    requires
        0 <= m <= n,
    ensures
        free_before(fixed, m) <= free_before(fixed, n),
    decreases n - m,
{
    if m < n {
        lemma_free_before_mono(fixed, m, n - 1);
    }
}

/// The free keys among the first `n` are as many as the free positions, and the key at a
/// free position `i` is the one numbered `free_before(fixed, i)`.
pub proof fn lemma_unfixed_upto(inp: Seq<Kc>, fixed: Seq<Kc>, n: int)
    requires
        0 <= n,
    ensures
        unfixed_upto(inp, fixed, n).len() == free_before(fixed, n),
        forall|i: int|
            0 <= i < n && fixed[i] == Kc::No ==> #[trigger] unfixed_upto(inp, fixed, n)[free_before(
                fixed,
                i,
            )] == inp[i],
    decreases n,
{
    if n > 0 {
        lemma_unfixed_upto(inp, fixed, n - 1);
        assert forall|i: int|
            0 <= i < n && fixed[i] == Kc::No implies #[trigger] unfixed_upto(inp, fixed, n)[free_before(
                fixed,
                i,
            )] == inp[i] by {
            if i < n - 1 {
                lemma_free_before_mono(fixed, i + 1, n - 1);
                lemma_free_before_bound(fixed, i);
                assert(unfixed_upto(inp, fixed, n - 1)[free_before(fixed, i)] == inp[i]);
            } else {
                assert(unfixed_upto(inp, fixed, n) == unfixed_upto(inp, fixed, n - 1).push(inp[i]));
            }
        }
    }
}

/// Removing the fixed keys of a layout and filling the free positions back in gives the
/// layout back, when the layout holds its fixed keys where they belong.
pub proof fn law_with_fixed_undoes_without_fixed(s: Seq<Kc>, fixed: Seq<Kc>)
    requires
        s.len() <= fixed.len(),
        forall|i: int| 0 <= i < s.len() && fixed[i] != Kc::No ==> #[trigger] s[i] == fixed[i],
    ensures
        spec_with_fixed(spec_without_fixed(s, fixed), fixed, s.len() as int) == s,
{
    lemma_unfixed_upto(s, fixed, s.len() as int);
    let w = spec_with_fixed(spec_without_fixed(s, fixed), fixed, s.len() as int);
    assert forall|i: int| 0 <= i < s.len() implies #[trigger] w[i] == s[i] by {
        if fixed[i] == Kc::No {
            assert(spec_without_fixed(s, fixed)[free_before(fixed, i)] == s[i]);
        }
    }
    assert(w =~= s);
}

/// Filling the free positions and taking the free keys out again gives back the keys
/// that were filled in.
pub proof fn law_without_fixed_undoes_with_fixed(u: Seq<Kc>, fixed: Seq<Kc>, n: int)
    requires
        0 <= n <= fixed.len(),
        u.len() == free_before(fixed, n),
    ensures
        spec_without_fixed(spec_with_fixed(u, fixed, n), fixed) == u,
{
    let w = spec_with_fixed(u, fixed, n);
    assert forall|m: int| 0 <= m <= n implies #[trigger] unfixed_upto(w, fixed, m) == u.take(
        free_before(fixed, m),
    ) by {
        lemma_unfixed_prefix(u, fixed, n, m);
    }
    assert(unfixed_upto(w, fixed, n) == u.take(free_before(fixed, n)));
    assert(u.take(u.len() as int) =~= u);
}

proof fn lemma_unfixed_prefix(u: Seq<Kc>, fixed: Seq<Kc>, n: int, m: int)
    requires
        0 <= m <= n <= fixed.len(),
        u.len() == free_before(fixed, n),
    ensures
        unfixed_upto(spec_with_fixed(u, fixed, n), fixed, m) == u.take(free_before(fixed, m)),
    decreases m,
{
    let w = spec_with_fixed(u, fixed, n);
    if m > 0 {
        lemma_unfixed_prefix(u, fixed, n, m - 1);
        lemma_free_before_mono(fixed, m, n);
        lemma_free_before_bound(fixed, m - 1);
        if fixed[m - 1] == Kc::No {
            assert(w[m - 1] == u[free_before(fixed, m - 1)]);
            assert(u.take(free_before(fixed, m - 1)).push(u[free_before(fixed, m - 1)]) =~= u.take(
                free_before(fixed, m),
            ));
        }
    } else {
        assert(u.take(0) =~= Seq::<Kc>::empty());
    }
}

/// Filling the free positions never moves a fixed key.
pub proof fn law_with_fixed_keeps_fixed_keys(u: Seq<Kc>, fixed: Seq<Kc>, n: int, i: int)
    requires
        0 <= i < n,
        fixed[i] != Kc::No,
    ensures
        spec_with_fixed(u, fixed, n)[i] == fixed[i],
{
}

/// How many of the first `n` positions are free.
pub fn count_free(fixed: &[Kc], n: usize) -> (r: usize)
    requires
        n <= fixed@.len(),
    ensures
        r == free_before(fixed@, n as int),
{
    let mut c: usize = 0;
    let mut i: usize = 0;
    while i < n
        invariant
            i <= n,
            n <= fixed@.len(),
            c == free_before(fixed@, i as int),
            c <= i,
        decreases n - i,
    {
        proof {
            lemma_free_before_bound(fixed@, i as int);
        }
        if fixed[i] == Kc::No {
            c = c + 1;
        }
        i = i + 1;
    }
    c
}

/// The first position of `kc` in `l`, or -1 when `l` does not hold it.
pub open spec fn first_pos(l: Seq<Kc>, kc: Kc) -> int {
    if exists|i: int| 0 <= i < l.len() && l[i] == kc {
        choose|i: int|
            0 <= i < l.len() && l[i] == kc && forall|j: int| 0 <= j < i ==> l[j] != kc
    } else {
        -1
    }
}

/// `first_pos` is the least position of `kc`.
pub proof fn lemma_first_pos(l: Seq<Kc>, kc: Kc, i: int)
    requires
        0 <= i < l.len(),
        l[i] == kc,
        forall|j: int| 0 <= j < i ==> l[j] != kc,
    ensures
        first_pos(l, kc) == i,
{
    let c = choose|c: int| 0 <= c < l.len() && l[c] == kc && forall|j: int| 0 <= j < c ==> l[j] != kc;
    assert(0 <= c < l.len() && l[c] == kc && forall|j: int| 0 <= j < c ==> l[j] != kc);
    if c < i {
        assert(l[c] != kc);
    } else if c > i {
        assert(l[i] != kc);
    }
}

/// The first position of `kc` in `l`, if any.
pub fn position(l: &[Kc], kc: Kc) -> (r: Option<usize>)
    ensures
        r matches Some(i) ==> i < l@.len() && l@[i as int] == kc && forall|j: int|
            0 <= j < i ==> l@[j] != kc,
        r is None ==> forall|j: int| 0 <= j < l@.len() ==> l@[j] != kc,
        r == if first_pos(l@, kc) >= 0 {
            Some(first_pos(l@, kc) as usize)
        } else {
            None::<usize>
        },
{
    let mut i: usize = 0;
    while i < l.len()
        invariant
            i <= l@.len(),
            forall|j: int| 0 <= j < i ==> l@[j] != kc,
        decreases l.len() - i,
    {
        if l[i] == kc {
            proof {
                lemma_first_pos(l@, kc, i as int);
            }
            return Some(i);
        }
        i = i + 1;
    }
    None
}

/// Which cost of the bigram table applies to typing one key and then another.
#[derive(Debug, Clone, Copy, PartialEq, Eq)]
pub enum BigramCell {
    /// The two keys are typed by different hands.
    SwitchHand,
    /// The same key, twice.
    SameKey,
    /// Different keys on one hand: the table's cell for the first finger, the second
    /// finger and the row jump (the row difference plus two).
    Table { first_finger: i32, second_finger: i32, jump: i32 },
}

impl Model {
    /// Whether position `i` is right below position `v`.
    pub open spec fn below(self, i: int, v: int) -> bool {
        is_below(self.row@, self.hand@, self.finger@, i, v)
    }

    /// The first position right below `v`, if any.
    pub open spec fn spec_key_below(self, v: int) -> Option<int> {
        if exists|i: int| 0 <= i < self.row@.len() && self.below(i, v) {
            Some(
                choose|i: int|
                    0 <= i < self.row@.len() && self.below(i, v) && forall|j: int|
                        0 <= j < i ==> !self.below(j, v),
            )
        } else {
            None
        }
    }

    /// `spec_key_below` is the least position below `v`.
    pub proof fn lemma_spec_key_below(self, v: int, i: int)
        requires
            0 <= i < self.row@.len(),
            self.below(i, v),
            forall|j: int| 0 <= j < i ==> !self.below(j, v),
        ensures
            self.spec_key_below(v) == Some(i),
    {
        let c = choose|c: int|
            0 <= c < self.row@.len() && self.below(c, v) && forall|j: int|
                0 <= j < c ==> !self.below(j, v);
        assert(0 <= c < self.row@.len() && self.below(c, v) && forall|j: int|
            0 <= j < c ==> !self.below(j, v));
        if c < i {
            assert(!self.below(c, v));
        } else if c > i {
            assert(!self.below(i, v));
        }
    }

    /// The positions that `key_below` reads for `v` all exist.
    pub open spec fn below_readable(self, v: int) -> bool {
        &&& 0 <= v < self.row@.len()
        &&& v < self.hand@.len()
        &&& v < self.finger@.len()
        &&& self.row@[v] > i32::MIN
        &&& forall|i: int|
            0 <= i < self.row@.len() && #[trigger] self.row@[i] == self.row@[v] - 1 ==> i
                < self.hand@.len() && (self.hand@[i] == self.hand@[v] ==> i < self.finger@.len())
    }

    /// The positions that `bigram_cell` reads for `kc1` and `kc2` in `l` exist, and the
    /// row jump fits in an `i32`.
    pub open spec fn bigram_readable(self, l: Seq<Kc>, kc1: Kc, kc2: Kc) -> bool {
        let p = first_pos(l, kc1);
        let c = first_pos(l, kc2);
        p >= 0 && c >= 0 ==> {
            &&& p < self.finger@.len() && c < self.finger@.len()
            &&& p < self.hand@.len() && c < self.hand@.len()
            &&& p < self.row@.len() && c < self.row@.len()
            &&& i32::MIN <= self.row@[c] - self.row@[p] <= i32::MAX
            &&& self.row@[c] - self.row@[p] + 2 <= i32::MAX
        }
    }

    /// The cell of the bigram table for typing `kc1` then `kc2` in layout `l`; `None`
    /// when `l` lacks one of them.
    pub open spec fn spec_bigram_cell(self, l: Seq<Kc>, kc1: Kc, kc2: Kc) -> Option<BigramCell> {
        let p = first_pos(l, kc1);
        let c = first_pos(l, kc2);
        if p < 0 || c < 0 {
            None
        } else if self.hand@[p] == self.hand@[c] {
            if kc1 == kc2 {
                Some(BigramCell::SameKey)
            } else {
                Some(
                    BigramCell::Table {
                        first_finger: self.finger@[p],
                        second_finger: self.finger@[c],
                        jump: (self.row@[c] - self.row@[p] + 2) as i32,
                    },
                )
            }
        } else {
            Some(BigramCell::SwitchHand)
        }
    }

    /// Which cost of the bigram table applies to typing `kc1` then `kc2` in layout `l`:
    /// a hand switch, the same key twice, or the cell for the two fingers and the row
    /// jump. `None` when `l` lacks one of the keys.
    pub fn bigram_cell(&self, l: &[Kc], kc1: Kc, kc2: Kc) -> (r: Option<BigramCell>)
        requires
            self.bigram_readable(l@, kc1, kc2),
        ensures
            r == self.spec_bigram_cell(l@, kc1, kc2),
    {
        let previ = position(l, kc1);
        let curi = position(l, kc2);
        match (previ, curi) {
            (Some(previ), Some(curi)) => {
                let pfing = self.finger[previ];
                let cfing = self.finger[curi];
                let same_hand = self.hand[previ] == self.hand[curi];
                let jump = self.row[curi] - self.row[previ] + 2;
                if same_hand {
                    if kc1 == kc2 {
                        Some(BigramCell::SameKey)
                    } else {
                        Some(BigramCell::Table { first_finger: pfing, second_finger: cfing, jump })
                    }
                } else {
                    Some(BigramCell::SwitchHand)
                }
            },
            _ => None,
        }
    }

    /// The positions that `trigram_alt_roll` reads for the three keys in `l` exist.
    pub open spec fn trigram_readable(self, l: Seq<Kc>, kc1: Kc, kc2: Kc, kc3: Kc) -> bool {
        let i1 = first_pos(l, kc1);
        let i2 = first_pos(l, kc2);
        let i3 = first_pos(l, kc3);
        i1 >= 0 && i2 >= 0 && i3 >= 0 ==> {
            &&& i1 < self.hand@.len() && i2 < self.hand@.len()
            &&& i1 < self.finger@.len() && i2 < self.finger@.len()
            &&& self.hand@[i1] == self.hand@[i2] ==> i3 < self.hand@.len()
        }
    }

    /// Whether typing `kc1`, `kc2`, `kc3` in layout `l` rolls inward on one hand and then
    /// switches hand; `None` when `l` lacks one of them.
    pub open spec fn spec_trigram_alt_roll(self, l: Seq<Kc>, kc1: Kc, kc2: Kc, kc3: Kc) -> Option<
        bool,
    > {
        let i1 = first_pos(l, kc1);
        let i2 = first_pos(l, kc2);
        let i3 = first_pos(l, kc3);
        if i1 < 0 || i2 < 0 || i3 < 0 {
            None
        } else {
            Some(
                self.hand@[i1] == self.hand@[i2] && self.hand@[i2] != self.hand@[i3]
                    && self.finger@[i1] > self.finger@[i2],
            )
        }
    }

    /// Whether typing `kc1`, `kc2`, `kc3` in layout `l` rolls inward on one hand (the
    /// first finger numbered higher than the second) and then switches hand; `None` when
    /// `l` lacks one of them.
    pub fn trigram_alt_roll(&self, l: &[Kc], kc1: Kc, kc2: Kc, kc3: Kc) -> (r: Option<bool>)
        requires
            self.trigram_readable(l@, kc1, kc2, kc3),
        ensures
            r == self.spec_trigram_alt_roll(l@, kc1, kc2, kc3),
    {
        let i1 = position(l, kc1);
        let i2 = position(l, kc2);
        let i3 = position(l, kc3);
        match (i1, i2, i3) {
            (Some(i1), Some(i2), Some(i3)) => {
                let alt = self.hand[i1] == self.hand[i2] && self.hand[i2] != self.hand[i3];
                let rolling = self.finger[i1] > self.finger[i2];
                Some(alt && rolling)
            },
            _ => None,
        }
    }

    /// The first position right below `v` (one row lower, same hand and finger), if any.
    pub fn key_below(&self, v: usize) -> (r: Option<usize>)
        requires
            self.below_readable(v as int),
        ensures
            r matches Some(i) ==> i < self.row@.len() && self.below(i as int, v as int) && forall|
                j: int,
            |
                0 <= j < i ==> !self.below(j, v as int),
            r is None ==> forall|j: int| 0 <= j < self.row@.len() ==> !self.below(j, v as int),
            r == match self.spec_key_below(v as int) {
                Some(i) => Some(i as usize),
                None => None::<usize>,
            },
    {
        let row = self.row[v] - 1;
        let mut i: usize = 0;
        while i < self.row.len()
            invariant
                self.below_readable(v as int),
                row == self.row@[v as int] - 1,
                i <= self.row@.len(),
                forall|j: int| 0 <= j < i ==> !self.below(j, v as int),
            decreases self.row.len() - i,
        {
            if row == self.row[i] && self.hand[i] == self.hand[v] && self.finger[i]
                == self.finger[v] {
                proof {
                    self.lemma_spec_key_below(v as int, i as int);
                }
                return Some(i);
            }
            i = i + 1;
        }
        None
    }

    /// The keys of `inp` whose position is free, in order.
    pub fn without_fixed(&self, inp: &[Kc]) -> (r: Vec<Kc>)
        requires
            inp@.len() == self.universe@.len(),
            inp@.len() <= self.fixed@.len(),
        ensures
            r@ == spec_without_fixed(inp@, self.fixed@),
    {
        let mut out: Vec<Kc> = Vec::new();
        let mut i: usize = 0;
        while i < inp.len()
            invariant
                i <= inp@.len(),
                inp@.len() <= self.fixed@.len(),
                out@ == unfixed_upto(inp@, self.fixed@, i as int),
            decreases inp.len() - i,
        {
            if self.fixed[i] == Kc::No {
                out.push(inp[i]);
            }
            i = i + 1;
        }
        out
    }

    /// The layout whose free positions hold the keys of `inp` in order, and whose other
    /// positions hold their fixed key.
    pub fn with_fixed(&self, inp: &[Kc]) -> (r: Vec<Kc>)
        requires
            self.universe@.len() <= self.fixed@.len(),
            free_before(self.fixed@, self.universe@.len() as int) == inp@.len(),
        ensures
            r@ == spec_with_fixed(inp@, self.fixed@, self.universe@.len() as int),
    {
        let n = self.universe.len();
        let mut out: Vec<Kc> = Vec::new();
        let mut idx: usize = 0;
        let mut i: usize = 0;
        while i < n
            invariant
                n == self.universe@.len(),
                n <= self.fixed@.len(),
                free_before(self.fixed@, n as int) == inp@.len(),
                i <= n,
                idx == free_before(self.fixed@, i as int),
                out@ == spec_with_fixed(inp@, self.fixed@, i as int),
            decreases n - i,
        {
            proof {
                lemma_free_before_mono(self.fixed@, i as int + 1, n as int);
            }
            if self.fixed[i] == Kc::No {
                out.push(inp[idx]);
                idx = idx + 1;
            } else {
                out.push(self.fixed[i]);
            }
            proof {
                assert(out@ =~= spec_with_fixed(inp@, self.fixed@, i as int + 1));
            }
            i = i + 1;
        }
        out
    }

    /// The layout drawn with the format string: each `X` replaced by the next key of `l`,
    /// trailing whitespace removed.
    pub fn format(&self, l: &[Kc]) -> (r: String)
        requires
            x_count(self.layout@, self.layout@.len() as int) <= l@.len(),
        ensures
            r@ == spec_format(self.layout@, l@),
    {
        let layout = str_to_vec(self.layout.as_str());
        let mut out: Vec<char> = Vec::new();
        let mut idx: usize = 0;
        let mut i: usize = 0;
        while i < layout.len()
            invariant
                layout@ == self.layout@,
                x_count(layout@, layout@.len() as int) <= l@.len(),
                i <= layout@.len(),
                idx == x_count(layout@, i as int),
                out@ == format_upto(layout@, l@, i as int),
            decreases layout.len() - i,
        {
            proof {
                lemma_x_count_mono(layout@, i as int + 1, layout@.len() as int);
            }
            let c = layout[i];
            if c == 'X' {
                let mut name = str_to_vec(kc_name(l[idx]));
                out.append(&mut name);
                idx = idx + 1;
            } else {
                out.push(c);
            }
            i = i + 1;
        }
        let n = trimmed_len(&out);
        out.truncate(n);
        vec_to_str(out.as_slice())
    }
}

/// `x_count` does not decrease.
pub proof fn lemma_x_count_mono(layout: Seq<char>, m: int, n: int)
    requires
        0 <= m <= n,
    ensures
        x_count(layout, m) <= x_count(layout, n),
    decreases n - m,
{
    if m < n {
        lemma_x_count_mono(layout, m, n - 1);
    }
}

/// The bigram cell for typing the key at position `p` then the key at position `c` (each
/// the first position of its key in `l`): a hand switch exactly when the hands differ; on
/// one hand, the same-key cell only for one key typed twice, and for two different keys the
/// table's cell for the first key's finger, the second key's finger, and the row jump
/// (the second key's row less the first key's, plus two).
pub proof fn law_bigram_cell(m: Model, l: Seq<Kc>, kc1: Kc, kc2: Kc, p: int, c: int)
    requires
        0 <= p < l.len(),
        0 <= c < l.len(),
        l[p] == kc1,
        l[c] == kc2,
        forall|j: int| 0 <= j < p ==> l[j] != kc1,
        forall|j: int| 0 <= j < c ==> l[j] != kc2,
        m.bigram_readable(l, kc1, kc2),
    ensures
        m.hand@[p] != m.hand@[c] <==> m.spec_bigram_cell(l, kc1, kc2) == Some(BigramCell::SwitchHand),
        m.spec_bigram_cell(l, kc1, kc2) == Some(BigramCell::SameKey) <==> kc1 == kc2,
        m.hand@[p] == m.hand@[c] && kc1 != kc2 ==> m.spec_bigram_cell(l, kc1, kc2) == Some(
            BigramCell::Table {
                first_finger: m.finger@[p],
                second_finger: m.finger@[c],
                jump: (m.row@[c] - m.row@[p] + 2) as i32,
            },
        ),
        m.spec_bigram_cell(l, kc1, kc2) matches Some(BigramCell::Table { first_finger, second_finger, jump })
            ==> kc1 != kc2 && m.hand@[p] == m.hand@[c] && first_finger == m.finger@[p] && second_finger
            == m.finger@[c] && jump == m.row@[c] - m.row@[p] + 2,
{
    lemma_first_pos(l, kc1, p);
    lemma_first_pos(l, kc2, c);
    if kc1 == kc2 {
        assert(p == c) by {
            if p < c {
                assert(l[p] != kc2);
            } else if c < p {
                assert(l[c] != kc1);
            }
        }
    }
}

/// A key missing from the layout gives no bigram cell.
pub proof fn law_bigram_cell_missing(m: Model, l: Seq<Kc>, kc1: Kc, kc2: Kc)
    requires
        !l.contains(kc1) || !l.contains(kc2),
    ensures
        m.spec_bigram_cell(l, kc1, kc2) is None,
{
    if !l.contains(kc1) {
        assert(!(exists|i: int| 0 <= i < l.len() && l[i] == kc1));
    } else {
        assert(!(exists|i: int| 0 <= i < l.len() && l[i] == kc2));
    }
}

/// The alternating-roll bonus for the keys at positions `i1`, `i2`, `i3` (each the first
/// position of its key in `l`) is given exactly when the first two keys are on one hand, the
/// third key is on the other hand, and the roll goes inward (the first finger numbered
/// higher than the second). In particular, three keys on one hand never get it.
pub proof fn law_trigram_alt_roll(m: Model, l: Seq<Kc>, kc1: Kc, kc2: Kc, kc3: Kc, i1: int, i2: int, i3: int)
    requires
        0 <= i1 < l.len(),
        0 <= i2 < l.len(),
        0 <= i3 < l.len(),
        l[i1] == kc1,
        l[i2] == kc2,
        l[i3] == kc3,
        forall|j: int| 0 <= j < i1 ==> l[j] != kc1,
        forall|j: int| 0 <= j < i2 ==> l[j] != kc2,
        forall|j: int| 0 <= j < i3 ==> l[j] != kc3,
    ensures
        m.spec_trigram_alt_roll(l, kc1, kc2, kc3) is Some,
        m.spec_trigram_alt_roll(l, kc1, kc2, kc3) == Some(true) ==> m.hand@[i2] != m.hand@[i3],
        m.spec_trigram_alt_roll(l, kc1, kc2, kc3) == Some(true) ==> m.hand@[i1] == m.hand@[i2],
        m.spec_trigram_alt_roll(l, kc1, kc2, kc3) == Some(true) ==> m.finger@[i1] > m.finger@[i2],
        m.hand@[i1] == m.hand@[i2] && m.hand@[i2] != m.hand@[i3] && m.finger@[i1] > m.finger@[i2]
            ==> m.spec_trigram_alt_roll(l, kc1, kc2, kc3) == Some(true),
        m.hand@[i2] == m.hand@[i3] ==> m.spec_trigram_alt_roll(l, kc1, kc2, kc3) == Some(false),
{
    lemma_first_pos(l, kc1, i1);
    lemma_first_pos(l, kc2, i2);
    lemma_first_pos(l, kc3, i3);
}

/// A key missing from the layout gives no trigram answer.
pub proof fn law_trigram_alt_roll_missing(m: Model, l: Seq<Kc>, kc1: Kc, kc2: Kc, kc3: Kc)
    requires
        !l.contains(kc1) || !l.contains(kc2) || !l.contains(kc3),
    ensures
        m.spec_trigram_alt_roll(l, kc1, kc2, kc3) is None,
{
    if !l.contains(kc1) {
        assert(!(exists|i: int| 0 <= i < l.len() && l[i] == kc1));
    } else if !l.contains(kc2) {
        assert(!(exists|i: int| 0 <= i < l.len() && l[i] == kc2));
    } else {
        assert(!(exists|i: int| 0 <= i < l.len() && l[i] == kc3));
    }
}

} // verus!
