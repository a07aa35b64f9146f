use crate::constants::Constants;
use crate::models::count_map::CountMap;
use crate::models::layer::{dedup_keys, lemma_dedup_occurrences, lemma_occurrences_push};
use crate::types::{spec_is_mod, Kc, KcSet};
use vstd::prelude::*;

verus! {

/// Whether `s` holds a modifier key.
pub open spec fn has_mods(s: KcSet) -> bool {
    exists|k: Kc| s.has(k) && spec_is_mod(k)
}

/// How many of the first `n` keys hold a modifier.
pub open spec fn mod_keys_upto(keys: Seq<KcSet>, n: int) -> int {
    keys.take(n).filter(|s: KcSet| has_mods(s)).len() as int
}

/// Key `i` after the modifier limit: it loses its modifiers when more than `max_phys_mod`
/// keys up to it hold modifiers.
pub open spec fn mod_limited(keys: Seq<KcSet>, i: int, max_phys_mod: int) -> KcSet {
    if has_mods(keys[i]) && mod_keys_upto(keys, i + 1) > max_phys_mod {
        keys[i].spec_minus(keys[i].spec_mods())
    } else {
        keys[i]
    }
}

/// Every key after the modifier limit.
pub open spec fn mod_limited_keys(keys: Seq<KcSet>, max_phys_mod: int) -> Seq<KcSet> {
    Seq::new(keys.len(), |i: int| mod_limited(keys, i, max_phys_mod))
}

/// How many of the first `n` keys of `s` equal `x`.
pub open spec fn occurrences(s: Seq<KcSet>, n: int, x: KcSet) -> int {
    s.take(n).filter(|y: KcSet| y == x).len() as int
}

/// Key `i` of a normalised layout: the key after the modifier limit, emptied when more
/// than `max_phys_dup` keys up to it are that same key.
pub open spec fn normalised_key(keys: Seq<KcSet>, i: int, cnst: Constants) -> KcSet {
    let s = mod_limited_keys(keys, cnst.max_phys_mod as int);
    if occurrences(s, i + 1, s[i]) > (cnst.max_phys_dup as i32) as int {
        KcSet::spec_empty()
    } else {
        s[i]
    }
}

/// A layout: the key codes each physical key produces.
#[derive(Debug, Clone, Default, Eq, PartialEq, Ord, PartialOrd, Hash)]
pub struct Layout {
    pub keys: Vec<KcSet>,
}

impl Layout {
    pub fn new(keys: Vec<KcSet>) -> (r: Self)
        ensures
            r.keys@ == keys@,
    {
        Self { keys }
    }

    /// The number of physical keys.
    pub fn num_physical(&self) -> (r: usize)
        ensures
            r == self.keys@.len(),
    {
        self.keys.len()
    }

    /// Gets rid of useless layout features: keys holding modifiers beyond the
    /// `cnst.max_phys_mod`-th lose them, and a key set repeated more than
    /// `cnst.max_phys_dup` times is emptied from its next repetition on.
    pub fn normalise(&mut self, cnst: &Constants)
        requires
            old(self).keys@.len() <= i32::MAX,
        ensures
            final(self).keys@ == normalised_keys(old(self).keys@, *cnst),
    {
        let ghost keys0 = self.keys@;
        let ghost s = mod_limited_keys(keys0, cnst.max_phys_mod as int);
        let mut cm: CountMap<KcSet> = CountMap::new();
        let mut mod_count: usize = 0;
        let mut i: usize = 0;
        while i < self.keys.len()
            invariant
                keys0 == old(self).keys@,
                s == mod_limited_keys(keys0, cnst.max_phys_mod as int),
                keys0.len() <= i32::MAX,
                self.keys@.len() == keys0.len(),
                i <= keys0.len(),
                mod_count == mod_keys_upto(keys0, i as int),
                cm.wf(),
                forall|x: KcSet| #[trigger] cm.count(x) == occurrences(s, i as int, x),
                forall|j: int| 0 <= j < i ==> #[trigger] self.keys@[j] == normalised_key(keys0, j, *cnst),
                forall|j: int| i <= j < keys0.len() ==> #[trigger] self.keys@[j] == keys0[j],
            decreases keys0.len() - i,
        {
            let mut kcset = self.keys[i];
            let mods = kcset.mods();
            proof {
                KcSet::lemma_values(kcset, mods);
                assert(keys0.take(i as int + 1) =~= keys0.take(i as int).push(keys0[i as int]));
                keys0.take(i as int).lemma_filter_push(keys0[i as int], |t: KcSet| has_mods(t));
                assert(mod_keys_upto(keys0, i as int) <= i) by {
                    keys0.take(i as int).lemma_filter_len(|t: KcSet| has_mods(t));
                }
            }
            if !mods.is_empty() {
                proof {
                    let w = choose|k: Kc| mods.has(k);
                    assert(kcset.has(w) && spec_is_mod(w));
                }
                mod_count = mod_count + 1;
                if mod_count > cnst.max_phys_mod {
                    kcset.remove_all(mods);
                }
            } else {
                proof {
                    if has_mods(kcset) {
                        let w = choose|k: Kc| kcset.has(k) && spec_is_mod(k);
                        assert(mods.has(w));
                    }
                }
            }
            proof {
                assert(kcset == s[i as int]);
                assert(s.take(i as int + 1) =~= s.take(i as int).push(kcset));
                assert forall|x: KcSet| #[trigger] occurrences(s, i as int + 1, x) == occurrences(s, i as int, x)
                    + if x == kcset { 1int } else { 0int } by {
                    s.take(i as int).lemma_filter_push(kcset, |y: KcSet| y == x);
                }
                assert(occurrences(s, i as int, kcset) <= i) by {
                    s.take(i as int).lemma_filter_len(|y: KcSet| y == kcset);
                }
            }
            let c = cm.adjust_count(kcset, true);
            if c > #[verifier::truncate] (cnst.max_phys_dup as i32) {
                kcset.clear();
            }
            self.keys.set(i, kcset);
            i = i + 1;
        }
        proof {
            assert(self.keys@ =~= normalised_keys(keys0, *cnst));
        }
    }
}

/// The keys of `keys` after normalisation.
pub open spec fn normalised_keys(keys: Seq<KcSet>, cnst: Constants) -> Seq<KcSet> {
    Seq::new(keys.len(), |i: int| normalised_key(keys, i, cnst))
}

proof fn lemma_mod_keys_push(s: Seq<KcSet>, n: int)
    requires
        0 <= n < s.len(),
    ensures
        mod_keys_upto(s, n + 1) == mod_keys_upto(s, n) + if has_mods(s[n]) { 1int } else { 0int },
        0 <= mod_keys_upto(s, n),
{
    assert(s.take(n + 1) =~= s.take(n).push(s[n]));
    s.take(n).lemma_filter_push(s[n], |t: KcSet| has_mods(t));
}

/// Past the modifier limit, the first `n` keys hold modifiers as often as the layout did,
/// but no more than the limit.
proof fn lemma_mod_limited_count(keys: Seq<KcSet>, mm: int, n: int)
    requires
        0 <= mm,
        0 <= n <= keys.len(),
    ensures
        mod_keys_upto(mod_limited_keys(keys, mm), n) == if mod_keys_upto(keys, n) < mm {
            mod_keys_upto(keys, n)
        } else {
            mm
        },
    decreases n,
{
    let m = mod_limited_keys(keys, mm);
    if n == 0 {
        assert(keys.take(0).filter(|t: KcSet| has_mods(t)) =~= Seq::<KcSet>::empty());
        assert(m.take(0).filter(|t: KcSet| has_mods(t)) =~= Seq::<KcSet>::empty());
    } else {
        lemma_mod_limited_count(keys, mm, n - 1);
        lemma_mod_keys_push(keys, n - 1);
        lemma_mod_keys_push(m, n - 1);
        let k = keys[n - 1];
        KcSet::lemma_values(k, k.spec_mods());
        KcSet::lemma_values(k, k);
        if has_mods(k) && mod_keys_upto(keys, n) > mm {
            assert(!has_mods(m[n - 1]));
        }
    }
}

/// Emptying keys never adds a key holding modifiers.
proof fn lemma_dedup_mod_count(s: Seq<KcSet>, max_same: int, n: int)
    requires
        0 <= n <= s.len(),
    ensures
        mod_keys_upto(dedup_keys(s, max_same), n) <= mod_keys_upto(s, n),
    decreases n,
{
    let d = dedup_keys(s, max_same);
    if n == 0 {
        assert(s.take(0).filter(|t: KcSet| has_mods(t)) =~= Seq::<KcSet>::empty());
        assert(d.take(0).filter(|t: KcSet| has_mods(t)) =~= Seq::<KcSet>::empty());
    } else {
        lemma_dedup_mod_count(s, max_same, n - 1);
        lemma_mod_keys_push(s, n - 1);
        lemma_mod_keys_push(d, n - 1);
        KcSet::lemma_values(KcSet::spec_empty(), KcSet::spec_empty());
    }
}

/// Normalising a normalised layout changes nothing, and a normalised layout holds modifiers
/// on at most `cnst.max_phys_mod` keys and each non-empty key set at most
/// `cnst.max_phys_dup` times.
pub proof fn law_layout_normalise(keys: Seq<KcSet>, cnst: Constants)
    ensures
        normalised_keys(normalised_keys(keys, cnst), cnst) == normalised_keys(keys, cnst),
        normalised_keys(keys, cnst).len() == keys.len(),
        mod_keys_upto(normalised_keys(keys, cnst), keys.len() as int) <= cnst.max_phys_mod,
        0 <= (cnst.max_phys_dup as i32) ==> forall|j: int|
            0 <= j < keys.len() && normalised_keys(keys, cnst)[j] != KcSet::spec_empty() ==> occurrences(
                normalised_keys(keys, cnst),
                keys.len() as int,
                #[trigger] normalised_keys(keys, cnst)[j],
            ) <= (cnst.max_phys_dup as i32),
{
    let mm = cnst.max_phys_mod as int;
    let dup = (cnst.max_phys_dup as i32) as int;
    let n = keys.len() as int;
    let m = mod_limited_keys(keys, mm);
    let r = normalised_keys(keys, cnst);
    assert(r =~= dedup_keys(m, dup));
    // The modifier limit holds of `r` at every position.
    assert forall|i: int| 0 <= i <= n implies mod_keys_upto(r, i) <= mm by {
        lemma_mod_limited_count(keys, mm, i);
        lemma_dedup_mod_count(m, dup, i);
    }
    let m2 = mod_limited_keys(r, mm);
    assert(m2 =~= r);
    let r2 = normalised_keys(r, cnst);
    assert(r2 =~= dedup_keys(m2, dup));
    assert forall|i: int| 0 <= i < n implies #[trigger] r2[i] == r[i] by {
        lemma_occurrences_push(m, i, m[i]);
        lemma_occurrences_push(r, i, r[i]);
        assert(0 <= occurrences(m, i, m[i])) by {
            m.take(i).lemma_filter_len(|y: KcSet| y == m[i]);
        }
        if dup >= 0 && r[i] != KcSet::spec_empty() {
            lemma_dedup_occurrences(m, dup, i + 1, r[i]);
        }
    }
    assert(r2 =~= r);
    if dup >= 0 {
        assert forall|j: int|
            0 <= j < n && r[j] != KcSet::spec_empty() implies occurrences(r, n, #[trigger] r[j]) <= dup by {
            lemma_dedup_occurrences(m, dup, n, r[j]);
        }
    }
}

} // verus!
