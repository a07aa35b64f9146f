use crate::constants::{MAX_MODS_PER_LAYER, MAX_SAME};
use crate::models::count_map::CountMap;
use crate::models::layout::{has_mods, occurrences};
use crate::ga::ops::util::choose_positions;
use crate::types::{spec_is_mod, Kc, KcSet};
use vstd::prelude::*;

verus! {

/// The positions of the keys of `keys` that hold a modifier, in order.
pub open spec fn mod_positions(keys: Seq<KcSet>) -> Seq<int> {
    Seq::new(keys.len(), |i: int| i).filter(|i: int| has_mods(keys[i]))
}

/// `keys` with the modifiers of the keys at the positions in `chosen` removed.
pub open spec fn without_mods_at(keys: Seq<KcSet>, chosen: Seq<int>) -> Seq<KcSet> {
    Seq::new(
        keys.len(),
        |i: int| if chosen.contains(i) { keys[i].spec_minus(keys[i].spec_mods()) } else { keys[i] },
    )
}

/// Key `i` of `s`, emptied when more than `max_same` keys up to it are that same key.
pub open spec fn dedup_key(s: Seq<KcSet>, i: int, max_same: int) -> KcSet {
    if occurrences(s, i + 1, s[i]) > max_same {
        KcSet::spec_empty()
    } else {
        s[i]
    }
}

/// Every key of `s`, each emptied when more than `max_same` keys up to it are that same key.
pub open spec fn dedup_keys(s: Seq<KcSet>, max_same: int) -> Seq<KcSet> {
    Seq::new(s.len(), |i: int| dedup_key(s, i, max_same))
}

/// `after` is `before` normalised: some `num_stripped` distinct keys that hold modifiers lose
/// them, then repeated key sets beyond `max_same` are emptied.
pub open spec fn layer_normalised(
    before: Seq<KcSet>,
    after: Seq<KcSet>,
    max_mods: int,
    max_same: int,
) -> bool {
    exists|chosen: Seq<int>|
        {
            &&& chosen.no_duplicates()
            &&& chosen.len() == num_stripped(before, max_mods)
            &&& forall|w: int|
                0 <= w < chosen.len() ==> mod_positions(before).contains(#[trigger] chosen[w])
            &&& after == dedup_keys(without_mods_at(before, chosen), max_same)
        }
}

/// How many keys `Layer::normalise` strips of their modifiers.
pub open spec fn num_stripped(keys: Seq<KcSet>, max_mods: int) -> int {
    let n = mod_positions(keys).len() as int;
    let excess = n - max_mods;
    if excess <= 0 {
        0
    } else if excess < n {
        excess
    } else {
        n
    }
}

pub proof fn lemma_occurrences_push(s: Seq<KcSet>, n: int, x: KcSet)
    requires
        0 <= n < s.len(),
    ensures
        occurrences(s, n + 1, x) == occurrences(s, n, x) + if s[n] == x { 1int } else { 0int },
{
    let kcset = s[n];
    assert(s.take(n + 1) =~= s.take(n).push(kcset));
    assert forall|z: KcSet| #[trigger] occurrences(s, n + 1, z) == occurrences(s, n, z) + if z == kcset {
        1int
    } else {
        0int
    } by {
        s.take(n).lemma_filter_push(kcset, |y: KcSet| y == z);
    }
    assert(occurrences(s, n + 1, x) == occurrences(s, n, x) + if x == kcset { 1int } else { 0int });
}

/// Repeats emptied: a non-empty key set occurs at most `max_same` times in the first `n`
/// keys, and no more often than before.
pub proof fn lemma_dedup_occurrences(s: Seq<KcSet>, max_same: int, n: int, x: KcSet)
    requires
        0 <= n <= s.len(),
        0 <= max_same,
        x != KcSet::spec_empty(),
    ensures
        occurrences(dedup_keys(s, max_same), n, x) <= max_same,
        occurrences(dedup_keys(s, max_same), n, x) <= occurrences(s, n, x),
    decreases n,
{
    let d = dedup_keys(s, max_same);
    if n == 0 {
        assert(d.take(0).filter(|y: KcSet| y == x) =~= Seq::<KcSet>::empty());
        assert(s.take(0).filter(|y: KcSet| y == x) =~= Seq::<KcSet>::empty());
    } else {
        lemma_dedup_occurrences(s, max_same, n - 1, x);
        lemma_occurrences_push(d, n - 1, x);
        lemma_occurrences_push(s, n - 1, x);
    }
}

/// The positions chosen by a predicate among the first `m` of `0, 1, 2, ...` are listed
/// once each, and are below `m`.
proof fn lemma_positions_no_dup(all: Seq<int>, p: spec_fn(int) -> bool, m: int)
    requires
        0 <= m <= all.len(),
        forall|i: int| 0 <= i < all.len() ==> #[trigger] all[i] == i,
    ensures
        all.take(m).filter(p).no_duplicates(),
        forall|j: int| 0 <= j < all.take(m).filter(p).len() ==> 0 <= #[trigger] all.take(m).filter(p)[j] < m,
    decreases m,
{
    if m == 0 {
        assert(all.take(0).filter(p) =~= Seq::<int>::empty());
    } else {
        lemma_positions_no_dup(all, p, m - 1);
        assert(all.take(m) =~= all.take(m - 1).push(m - 1));
        all.take(m - 1).lemma_filter_push(m - 1, p);
    }
}

/// A normalised layer keeps its length, only ever takes key codes away, holds modifiers on
/// at most `max_mods` keys, and holds each non-empty key set at most `max_same` times.
pub proof fn law_layer_normalised_bounds(before: Seq<KcSet>, after: Seq<KcSet>, max_mods: int, max_same: int)
    requires
        layer_normalised(before, after, max_mods, max_same),
        0 <= max_mods,
        0 <= max_same,
    ensures
        after.len() == before.len(),
        forall|j: int, k: Kc| 0 <= j < after.len() && #[trigger] after[j].has(k) ==> before[j].has(k),
        mod_positions(after).len() <= max_mods,
        forall|j: int|
            0 <= j < after.len() && after[j] != KcSet::spec_empty() ==> occurrences(
                after,
                after.len() as int,
                #[trigger] after[j],
            ) <= max_same,
{
    let chosen = choose|chosen: Seq<int>|
        {
            &&& chosen.no_duplicates()
            &&& chosen.len() == num_stripped(before, max_mods)
            &&& forall|w: int|
                0 <= w < chosen.len() ==> mod_positions(before).contains(#[trigger] chosen[w])
            &&& after == dedup_keys(without_mods_at(before, chosen), max_same)
        };
    let w = without_mods_at(before, chosen);
    let n = before.len();
    assert forall|j: int, k: Kc| 0 <= j < after.len() && #[trigger] after[j].has(k) implies before[j].has(k) by {
        KcSet::lemma_values(before[j], before[j].spec_mods());
        KcSet::lemma_values(before[j], before[j]);
        KcSet::lemma_values(KcSet::spec_empty(), KcSet::spec_empty());
    }
    assert forall|j: int|
        0 <= j < after.len() && after[j] != KcSet::spec_empty() implies occurrences(
        after,
        after.len() as int,
        #[trigger] after[j],
    ) <= max_same by {
        lemma_dedup_occurrences(w, max_same, n as int, after[j]);
    }
    // Modifier keys: those of `after` are modifier keys of `before` that were not chosen.
    let all = Seq::new(n, |i: int| i);
    let pa = |i: int| has_mods(after[i]);
    let pb = |i: int| has_mods(before[i]);
    let ma = mod_positions(after);
    let mb = mod_positions(before);
    assert(all.take(n as int) =~= all);
    lemma_positions_no_dup(all, pa, n as int);
    lemma_positions_no_dup(all, pb, n as int);
    assert(ma == all.filter(pa));
    assert(mb == all.filter(pb));
    ma.unique_seq_to_set();
    mb.unique_seq_to_set();
    chosen.unique_seq_to_set();
    let a = ma.to_set();
    let b = mb.to_set();
    let c = chosen.to_set();
    assert(a.subset_of(b.difference(c))) by {
        assert forall|i: int| a.contains(i) implies b.difference(c).contains(i) by {
            assert(ma.contains(i));
            let t = choose|t: int| 0 <= t < ma.len() && ma[t] == i;
            all.lemma_filter_pred(pa, t);
            assert(0 <= i < n);
            assert(all[i] == i);
            KcSet::lemma_values(before[i], before[i].spec_mods());
            KcSet::lemma_values(before[i], before[i]);
            KcSet::lemma_values(KcSet::spec_empty(), KcSet::spec_empty());
            let k = choose|k: Kc| after[i].has(k) && spec_is_mod(k);
            assert(before[i].has(k));
            all.lemma_filter_contains(pb, i);
            if chosen.contains(i) {
                assert(w[i] == before[i].spec_minus(before[i].spec_mods()));
            }
        }
    }
    assert(c.subset_of(b)) by {
        assert forall|i: int| c.contains(i) implies b.contains(i) by {
            let t = choose|t: int| 0 <= t < chosen.len() && chosen[t] == i;
        }
    }
    vstd::set_lib::lemma_len_subset(a, b.difference(c));
    assert(b.difference(c) + c =~= b);
    vstd::set_lib::lemma_set_disjoint_lens(b.difference(c), c);
    mb.lemma_filter_len(pb);
}

/// One layer of a layout: the key codes each physical key produces.
#[derive(Debug, Clone, Eq, PartialEq, Ord, PartialOrd, Hash)]
pub struct Layer {
    pub keys: Vec<KcSet>,
}

impl Layer {
    pub fn new(keys: &[KcSet]) -> (r: Self)
        ensures
            r.keys@ == keys@,
    {
        let mut v: Vec<KcSet> = Vec::new();
        let mut i: usize = 0;
        while i < keys.len()
            invariant
                i <= keys.len(),
                v@ == keys@.take(i as int),
            decreases keys.len() - i,
        {
            v.push(keys[i]);
            proof {
                assert(keys@.take(i as int + 1) =~= keys@.take(i as int).push(keys@[i as int]));
            }
            i = i + 1;
        }
        proof {
            assert(keys@.take(keys@.len() as int) =~= keys@);
        }
        Self { keys: v }
    }

    /// The number of physical keys.
    pub fn num_physical(&self) -> (r: usize)
        ensures
            r == self.keys@.len(),
    {
        self.keys.len()
    }

    /// The positions of the keys that hold a modifier, in order.
    fn mod_positions(&self) -> (r: Vec<usize>)
        ensures
            r@.map_values(|i: usize| i as int) == mod_positions(self.keys@),
            forall|a: int, b: int| 0 <= a < b < r@.len() ==> r@[a] < r@[b],
    {
        let ghost idx = Seq::new(self.keys@.len(), |i: int| i);
        let ghost pred = |i: int| has_mods(self.keys@[i]);
        let mut r: Vec<usize> = Vec::new();
        let mut i: usize = 0;
        while i < self.keys.len()
            invariant
                i <= self.keys.len(),
                idx == Seq::new(self.keys@.len(), |i: int| i),
                pred == (|i: int| has_mods(self.keys@[i])),
                r@.map_values(|i: usize| i as int) == idx.take(i as int).filter(pred),
                forall|a: int, b: int| 0 <= a < b < r@.len() ==> r@[a] < r@[b],
                forall|a: int| 0 <= a < r@.len() ==> r@[a] < i,
            decreases self.keys.len() - i,
        {
            proof {
                assert(idx.take(i as int + 1) =~= idx.take(i as int).push(i as int));
                idx.take(i as int).lemma_filter_push(i as int, pred);
            }
            let m = self.keys[i].mods();
            proof {
                crate::types::KcSet::lemma_values(self.keys@[i as int], m);
            }
            if !m.is_empty() {
                proof {
                    let w = choose|k: crate::types::Kc| m.has(k);
                    assert(pred(i as int));
                }
                let ghost old_r = r@;
                r.push(i);
                proof {
                    assert(r@.map_values(|i: usize| i as int) =~= old_r.map_values(|i: usize| i as int).push(i as int));
                }
            } else {
                proof {
                    if pred(i as int) {
                        let w = choose|k: crate::types::Kc| self.keys@[i as int].has(k) && crate::types::spec_is_mod(k);
                        assert(m.has(w));
                    }
                }
            }
            i = i + 1;
        }
        proof {
            assert(idx.take(self.keys@.len() as int) =~= idx);
        }
        r
    }

    /// Strips the modifiers of the keys at the positions in `positions`.
    pub fn strip_mods_at(&mut self, positions: &Vec<usize>)
        ensures
            final(self).keys@ == without_mods_at(
                old(self).keys@,
                positions@.map_values(|p: usize| p as int),
            ),
    {
        let ghost keys0 = self.keys@;
        let ghost ps = positions@.map_values(|p: usize| p as int);
        let mut keys: Vec<KcSet> = Vec::new();
        let mut i: usize = 0;
        while i < self.keys.len()
            invariant
                i <= self.keys.len(),
                self.keys@ == keys0,
                ps == positions@.map_values(|p: usize| p as int),
                keys@ == without_mods_at(keys0, ps).take(i as int),
            decreases self.keys.len() - i,
        {
            let mut kcset = self.keys[i];
            let mut strip = false;
            let mut j: usize = 0;
            while j < positions.len()
                invariant
                    j <= positions.len(),
                    strip == exists|w: int| 0 <= w < j && positions@[w] == i,
                decreases positions.len() - j,
            {
                if positions[j] == i {
                    strip = true;
                }
                j = j + 1;
            }
            proof {
                if strip {
                    let w = choose|w: int| 0 <= w < positions@.len() && positions@[w] == i;
                    assert(ps[w] == i as int);
                } else if ps.contains(i as int) {
                    let w = choose|w: int| 0 <= w < ps.len() && ps[w] == i as int;
                    assert(positions@[w] == i);
                }
            }
            if strip {
                let m = kcset.mods();
                kcset.remove_all(m);
            }
            keys.push(kcset);
            proof {
                assert(keys@ =~= without_mods_at(keys0, ps).take(i as int + 1));
            }
            i = i + 1;
        }
        proof {
            assert(keys@ =~= without_mods_at(keys0, ps));
        }
        self.keys = keys;
    }

    /// Gets rid of useless layer features: when more than `max_mods_per_layer` keys hold
    /// modifiers, randomly chosen ones among them lose their modifiers until that many are
    /// left; then a key set repeated more than `max_same` times is emptied from its next
    /// repetition on. Which keys lose their modifiers is left to chance; how many, and
    /// what becomes of the rest, is not.
    pub fn normalise(&mut self, max_mods_per_layer: i32, max_same: i32)
        requires
            old(self).keys@.len() <= i32::MAX,
            mod_positions(old(self).keys@).len() - max_mods_per_layer <= i32::MAX,
        ensures
            layer_normalised(
                old(self).keys@,
                final(self).keys@,
                max_mods_per_layer as int,
                max_same as int,
            ),
    {
        let ghost keys0 = self.keys@;
        let mods = self.mod_positions();
        proof {
            assert(mods@.len() == mod_positions(keys0).len()) by {
                assert(mods@.map_values(|i: usize| i as int).len() == mods@.len());
            }
            mod_positions(keys0).lemma_filter_len(|i: int| has_mods(keys0[i]));
        }
        // Remove excess mod keys.
        let remove_count = mods.len() as i32 - max_mods_per_layer;
        let mut positions: Vec<usize> = Vec::new();
        let mut chosen_idx: Vec<usize> = Vec::new();
        if remove_count > 0 {
            let amount = if (remove_count as usize) < mods.len() {
                remove_count as usize
            } else {
                mods.len()
            };
            chosen_idx = choose_positions(mods.len(), amount);
            let mut j: usize = 0;
            while j < chosen_idx.len()
                invariant
                    j <= chosen_idx.len(),
                    forall|w: int| 0 <= w < chosen_idx@.len() ==> #[trigger] chosen_idx@[w] < mods@.len(),
                    positions@.len() == j,
                    forall|w: int| 0 <= w < j ==> #[trigger] positions@[w] == mods@[chosen_idx@[w] as int],
                decreases chosen_idx.len() - j,
            {
                positions.push(mods[chosen_idx[j]]);
                j = j + 1;
            }
        }
        let ghost chosen = positions@.map_values(|p: usize| p as int);
        proof {
            assert(chosen.len() == num_stripped(keys0, max_mods_per_layer as int));
            assert forall|a: int, b: int| 0 <= a < chosen.len() && 0 <= b < chosen.len() && a != b
                implies chosen[a] != chosen[b] by {
                assert(chosen_idx@[a] != chosen_idx@[b]);
                assert(positions@[a] == mods@[chosen_idx@[a] as int]);
                assert(positions@[b] == mods@[chosen_idx@[b] as int]);
            }
            assert forall|w: int| 0 <= w < chosen.len()
                implies mod_positions(keys0).contains(#[trigger] chosen[w]) by {
                let c = chosen_idx@[w] as int;
                assert(positions@[w] == mods@[c]);
                assert(mods@.map_values(|i: usize| i as int)[c] == mods@[c] as int);
                assert(mod_positions(keys0)[c] == chosen[w]);
            }
        }
        self.strip_mods_at(&positions);
        self.dedup(max_same);
        proof {
            assert(self.keys@ == dedup_keys(without_mods_at(keys0, chosen), max_same as int));
            assert(layer_normalised(keys0, self.keys@, max_mods_per_layer as int, max_same as int));
        }
    }

    /// Empties each key set repeated more than `max_same` times from its next repetition on.
    fn dedup(&mut self, max_same: i32)
        requires
            old(self).keys@.len() <= i32::MAX,
        ensures
            final(self).keys@ == dedup_keys(old(self).keys@, max_same as int),
    {
        let ghost s = self.keys@;
        let mut cm: CountMap<KcSet> = CountMap::new();
        let mut keys: Vec<KcSet> = Vec::new();
        let mut i: usize = 0;
        while i < self.keys.len()
            invariant
                s == old(self).keys@,
                self.keys@ == s,
                s.len() <= i32::MAX,
                i <= s.len(),
                cm.wf(),
                forall|x: KcSet| #[trigger] cm.count(x) == occurrences(s, i as int, x),
                keys@ == dedup_keys(s, max_same as int).take(i as int),
            decreases s.len() - i,
        {
            let kcset = self.keys[i];
            proof {
                assert(s.take(i as int + 1) =~= s.take(i as int).push(kcset));
                assert forall|x: KcSet| #[trigger] occurrences(s, i as int + 1, x) == occurrences(s, i as int, x)
                    + if x == kcset { 1int } else { 0int } by {
                    s.take(i as int).lemma_filter_push(kcset, |y: KcSet| y == x);
                }
                assert(occurrences(s, i as int, kcset) <= i) by {
                    s.take(i as int).lemma_filter_len(|y: KcSet| y == kcset);
                }
            }
            if cm.adjust_count(kcset, true) <= max_same {
                keys.push(kcset);
            } else {
                keys.push(KcSet::new());
            }
            proof {
                assert(keys@ =~= dedup_keys(s, max_same as int).take(i as int + 1));
            }
            i = i + 1;
        }
        proof {
            assert(keys@ =~= dedup_keys(s, max_same as int));
        }
        self.keys = keys;
    }
}

/// A layout made of layers.
#[derive(Debug, Clone, Eq, PartialEq, Ord, PartialOrd, Hash)]
pub struct Layout {
    pub layers: Vec<Layer>,
}

impl Layout {
    pub fn new() -> (r: Self)
        ensures
            r.layers@.len() == 0,
    {
        Self { layers: Vec::new() }
    }

    /// This layout with `l` added as its last layer.
    pub fn with_layer(self, l: Layer) -> (r: Self)
        ensures
            r.layers@ == self.layers@.push(l),
    {
        let mut s = self;
        s.layers.push(l);
        s
    }

    /// Gets rid of useless layout features: normalises every layer.
    pub fn normalise(&mut self)
        requires
            forall|i: int|
                0 <= i < old(self).layers@.len() ==> #[trigger] old(self).layers@[i].keys@.len()
                    <= i32::MAX,
        ensures
            final(self).layers@.len() == old(self).layers@.len(),
            forall|i: int|
                0 <= i < old(self).layers@.len() ==> layer_normalised(
                    old(self).layers@[i].keys@,
                    #[trigger] final(self).layers@[i].keys@,
                    MAX_MODS_PER_LAYER as int,
                    MAX_SAME as int,
                ),
    {
        let mut rest: Vec<Layer> = Vec::new();
        std::mem::swap(&mut rest, &mut self.layers);
        let ghost layers0 = rest@;
        let mut done: Vec<Layer> = Vec::new();
        while rest.len() > 0
            invariant
                done@.len() + rest@.len() == layers0.len(),
                rest@ == layers0.skip(done@.len() as int),
                forall|i: int| 0 <= i < layers0.len() ==> #[trigger] layers0[i].keys@.len() <= i32::MAX,
                forall|i: int|
                    0 <= i < done@.len() ==> layer_normalised(
                        layers0[i].keys@,
                        #[trigger] done@[i].keys@,
                        MAX_MODS_PER_LAYER as int,
                        MAX_SAME as int,
                    ),
            decreases rest@.len(),
        {
            let mut l = rest.remove(0);
            proof {
                assert(l == layers0[done@.len() as int]);
                mod_positions(l.keys@).lemma_filter_len(|i: int| has_mods(l.keys@[i]));
            }
            l.normalise(MAX_MODS_PER_LAYER as i32, MAX_SAME as i32);
            done.push(l);
            proof {
                assert(rest@ =~= layers0.skip(done@.len() as int));
            }
        }
        self.layers = done;
    }

    /// The number of physical keys: that of the first layer, zero without layers.
    pub fn num_physical(&self) -> (r: usize)
        ensures
            r == if self.layers@.len() > 0 { self.layers@[0].keys@.len() } else { 0 },
    {
        if self.layers.len() > 0 {
            self.layers[0].num_physical()
        } else {
            0
        }
    }
}

/// When a layer holds modifiers on at most `max_mods` keys, normalising strips none: each key
/// stays as it was while its key set has occurred at most `max_same` times up to it, and is
/// emptied once it occurs more often.
pub proof fn law_layer_normalised_keeps(before: Seq<KcSet>, after: Seq<KcSet>, max_mods: int, max_same: int)
    requires
        layer_normalised(before, after, max_mods, max_same),
        mod_positions(before).len() <= max_mods,
    ensures
        after.len() == before.len(),
        forall|j: int|
            0 <= j < before.len() && occurrences(before, j + 1, #[trigger] before[j]) <= max_same ==> after[j]
                == before[j],
        forall|j: int|
            0 <= j < before.len() && occurrences(before, j + 1, #[trigger] before[j]) > max_same ==> after[j]
                == KcSet::spec_empty(),
{
    let chosen = choose|chosen: Seq<int>|
        {
            &&& chosen.no_duplicates()
            &&& chosen.len() == num_stripped(before, max_mods)
            &&& forall|w: int|
                0 <= w < chosen.len() ==> mod_positions(before).contains(#[trigger] chosen[w])
            &&& after == dedup_keys(without_mods_at(before, chosen), max_same)
        };
    assert(chosen.len() == 0);
    assert(without_mods_at(before, chosen) =~= before);
}

} // verus!
