use crate::constants::Constants;
use crate::models::count_map::{law_entries_are_nonzero_counts, lemma_count_empty, lemma_push_contains, spec_press_to_count, CountMap};
use crate::types::{is_mod, spec_is_mod, Kc, KcSet, KeyEv};
use vstd::prelude::*;

verus! {

/// Whether a key code event must be refused once `kc` reaches `count`.
pub open spec fn kc_refused(kc: Kc, count: int, max_mod: int) -> bool {
    (spec_is_mod(kc) && count > max_mod) || count < 0
}

/// The position of the first key code of `kcs`, from `i` on, whose new count is refused;
/// `kcs.len()` if there is none.
pub open spec fn first_refused(counts: CountMap<Kc>, kcs: Seq<Kc>, d: int, max_mod: int, i: int) -> int
    decreases kcs.len() - i,
{
    if i < 0 || i >= kcs.len() {
        kcs.len() as int
    } else if kc_refused(kcs[i], counts.count(kcs[i]) + d, max_mod) {
        i
    } else {
        first_refused(counts, kcs, d, max_mod, i + 1)
    }
}

/// No key code of `kcs` from `i` on is refused exactly when `first_refused` finds none.
pub proof fn lemma_first_refused(counts: CountMap<Kc>, kcs: Seq<Kc>, d: int, max_mod: int, i: int)
    requires
        0 <= i <= kcs.len(),
    ensures
        first_refused(counts, kcs, d, max_mod, i) == kcs.len() <==> forall|j: int|
            i <= j < kcs.len() ==> !kc_refused(#[trigger] kcs[j], counts.count(kcs[j]) + d, max_mod),
    decreases kcs.len() - i,
{
    if i < kcs.len() {
        lemma_first_refused(counts, kcs, d, max_mod, i + 1);
        if first_refused(counts, kcs, d, max_mod, i) != kcs.len() {
            if !kc_refused(kcs[i], counts.count(kcs[i]) + d, max_mod) {
                let j = choose|j: int|
                    i + 1 <= j < kcs.len() && kc_refused(#[trigger] kcs[j], counts.count(kcs[j]) + d, max_mod);
            }
        }
    }
}

/// The largest number of presses of one modifier key code allowed.
pub open spec fn max_mod(cnst: Constants) -> int {
    (cnst.max_mod_pressed as i32) as int
}

/// The outcome of a key code event on counts `before`: the counts `after` and the events `r`.
pub open spec fn automata_event(
    before: CountMap<Kc>,
    kev: KeyEv,
    cnst: Constants,
    after: CountMap<Kc>,
    r: Option<Vec<KeyEv>>,
) -> bool {
    let kcs = kev.kcset.mods_first();
    let d = spec_press_to_count(kev.press);
    let f = first_refused(before, kcs, d, max_mod(cnst), 0);
    &&& r is Some <==> f == kcs.len()
    &&& r matches Some(evs) ==> evs@ == kcs.map_values(
        |k: Kc| KeyEv { kcset: KcSet::spec_single(k), press: kev.press },
    )
    &&& forall|k: Kc| #[trigger] after.count(k) == if (if f < kcs.len() {
        kcs.take(f + 1)
    } else {
        kcs
    }).contains(k) {
        before.count(k) + d
    } else {
        before.count(k)
    }
    &&& after.wf()
}

/// Tracks which key codes are held and turns each key code event into one event per key code.
#[derive(Debug, Ord, PartialOrd, Eq, PartialEq, Hash)]
pub struct KeyAutomata {
    kcm: CountMap<Kc>,
}

impl Clone for KeyAutomata {
    fn clone(&self) -> (r: Self)
        ensures
            r.counts().entries() == self.counts().entries(),
    {
        proof {
            use_type_invariant(self);
        }
        KeyAutomata { kcm: self.kcm.clone() }
    }
}

impl Default for KeyAutomata {
    fn default() -> (r: Self)
        ensures
            r.counts().entries() == Seq::<(Kc, i32)>::empty(),
    {
        Self::new()
    }
}

impl KeyAutomata {
    #[verifier::type_invariant]
    spec fn inv(self) -> bool {
        self.kcm.wf()
    }

    /// How many times each key code is held.
    pub closed spec fn counts(self) -> CountMap<Kc> {
        self.kcm
    }

    pub fn new() -> (r: Self)
        ensures
            r.counts().entries() == Seq::<(Kc, i32)>::empty(),
    {
        Self { kcm: CountMap::new() }
    }

    /// The count of each held key code.
    pub fn kc_counts(&self) -> (r: &CountMap<Kc>)
        ensures
            *r == self.counts(),
            r.wf(),
    {
        proof {
            use_type_invariant(self);
        }
        &self.kcm
    }

    /// Applies a key code event: every key code of `kev.kcset`, the modifiers first and each
    /// group in key code order, is pressed or released, and each becomes an event of its own. `None` when a key code would be
    /// released more often than pressed, or a modifier pressed more than
    /// `cnst.max_mod_pressed` times; the key codes up to and including that one stay counted.
    pub fn event(&mut self, kev: KeyEv, cnst: &Constants) -> (r: Option<Vec<KeyEv>>)
        requires
            forall|k: Kc| kev.kcset.has(k) ==> i32::MIN <= #[trigger] old(self).counts().count(k)
                + spec_press_to_count(kev.press) <= i32::MAX,
        ensures
            automata_event(old(self).counts(), kev, *cnst, final(self).counts(), r),
    {
        proof {
            use_type_invariant(&*self);
            kev.kcset.lemma_mods_first();
        }
        let ghost old_counts = self.kcm;
        let ghost kcs = kev.kcset.mods_first();
        let ghost d = spec_press_to_count(kev.press);
        let ghost mm = max_mod(*cnst);
        let kcv = kev.kcset.to_vec_mods_first();
        let mut kcm = CountMap::new();
        std::mem::swap(&mut kcm, &mut self.kcm);
        let mut evs: Vec<KeyEv> = Vec::new();
        let mut i: usize = 0;
        while i < kcv.len()
            invariant
                kcv@ == kcs,
                kcs == kev.kcset.mods_first(),
                kcs.no_duplicates(),
                forall|k: Kc| #[trigger] kcs.contains(k) <==> kev.kcset.has(k),
                d == spec_press_to_count(kev.press),
                mm == max_mod(*cnst),
                i <= kcv.len(),
                kcm.wf(),
                old_counts == old(self).counts(),
                old_counts.wf(),
                forall|k: Kc| kev.kcset.has(k) ==> i32::MIN <= #[trigger] old_counts.count(k) + d <= i32::MAX,
                first_refused(old_counts, kcs, d, mm, 0) == first_refused(old_counts, kcs, d, mm, i as int),
                evs@ == kcs.take(i as int).map_values(
                    |k: Kc| KeyEv { kcset: KcSet::spec_single(k), press: kev.press },
                ),
                forall|k: Kc| #[trigger] kcm.count(k) == if kcs.take(i as int).contains(k) {
                    old_counts.count(k) + d
                } else {
                    old_counts.count(k)
                },
            decreases kcv.len() - i,
        {
            let kc = kcv[i];
            proof {
                assert(kcs.contains(kc));
                assert(!kcs.take(i as int).contains(kc)) by {
                    if kcs.take(i as int).contains(kc) {
                        let w = choose|w: int| 0 <= w < i && kcs.take(i as int)[w] == kc;
                        assert(kcs[w] == kcs[i as int]);
                    }
                }
                assert(kcs.take(i as int + 1) =~= kcs.take(i as int).push(kc));
                lemma_push_contains(kcs.take(i as int), kc);
            }
            proof {
                assert(kcm.count(kc) == old_counts.count(kc));
                assert(first_refused(old_counts, kcs, d, mm, i as int) == if kc_refused(
                    kc,
                    old_counts.count(kc) + d,
                    mm,
                ) {
                    i as int
                } else {
                    first_refused(old_counts, kcs, d, mm, i as int + 1)
                });
            }
            let count = kcm.adjust_count(kc, kev.press);
            if is_mod(kc) && count > #[verifier::truncate] (cnst.max_mod_pressed as i32) {
                self.kcm = kcm;
                return None;
            }
            if count < 0 {
                self.kcm = kcm;
                return None;
            }
            evs.push(KeyEv::new(KcSet::single(kc), kev.press));
            proof {
                assert(evs@ =~= kcs.take(i as int + 1).map_values(
                    |k: Kc| KeyEv { kcset: KcSet::spec_single(k), press: kev.press },
                ));
            }
            i = i + 1;
        }
        self.kcm = kcm;
        proof {
            assert(kcs.take(kcs.len() as int) =~= kcs);
        }
        Some(evs)
    }
}

/// The net presses of `k` in the key code events `kevs`: one up for each press that holds
/// it, one down for each release.
pub open spec fn net_presses(kevs: Seq<KeyEv>, k: Kc) -> int
    decreases kevs.len(),
{
    if kevs.len() == 0 {
        0
    } else {
        net_presses(kevs.drop_last(), k) + if kevs.last().kcset.has(k) {
            spec_press_to_count(kevs.last().press)
        } else {
            0
        }
    }
}

/// One let-through event: the counts of its key codes move by one, no other count moves,
/// and no count of its key codes goes below zero.
proof fn lemma_automata_step(before: CountMap<Kc>, kev: KeyEv, cnst: Constants, after: CountMap<Kc>, r: Option<Vec<KeyEv>>)
    requires
        automata_event(before, kev, cnst, after, r),
        r is Some,
    ensures
        forall|k: Kc| #[trigger] after.count(k) == before.count(k) + if kev.kcset.has(k) {
            spec_press_to_count(kev.press)
        } else {
            0
        },
        forall|k: Kc| kev.kcset.has(k) ==> 0 <= #[trigger] after.count(k),
{
    let kcs = kev.kcset.mods_first();
    let d = spec_press_to_count(kev.press);
    kev.kcset.lemma_mods_first();
    lemma_first_refused(before, kcs, d, max_mod(cnst), 0);
    assert forall|k: Kc| kev.kcset.has(k) implies 0 <= #[trigger] after.count(k) by {
        assert(kcs.contains(k));
        let j = choose|j: int| 0 <= j < kcs.len() && kcs[j] == k;
        assert(!kc_refused(kcs[j], before.count(kcs[j]) + d, max_mod(cnst)));
    }
}

/// From nothing held, a run of let-through events leaves each key code counted as often
/// as it was pressed and not released, and never below zero; the number of entries held
/// (what `num_pressed` reports) is then the number of key codes so counted.
pub proof fn law_automata_run(
    counts: Seq<CountMap<Kc>>,
    kevs: Seq<KeyEv>,
    cnst: Constants,
    rs: Seq<Option<Vec<KeyEv>>>,
)
    requires
        counts.len() == kevs.len() + 1,
        rs.len() == kevs.len(),
        counts[0].entries() == Seq::<(Kc, i32)>::empty(),
        forall|i: int|
            0 <= i < kevs.len() ==> automata_event(counts[i], #[trigger] kevs[i], cnst, counts[i + 1], rs[i])
                && rs[i] is Some,
    ensures
        forall|k: Kc| #[trigger] counts.last().count(k) == net_presses(kevs, k),
        forall|k: Kc| 0 <= #[trigger] net_presses(kevs, k),
        counts.last().wf() ==> counts.last().entries().len() == Set::new(
            |k: Kc| net_presses(kevs, k) != 0,
        ).len(),
    decreases kevs.len(),
{
    if kevs.len() == 0 {
        assert forall|k: Kc| #[trigger] counts.last().count(k) == net_presses(kevs, k) by {
            lemma_count_empty(counts[0].entries(), k);
        }
    } else {
        let n = kevs.len() - 1;
        let c2 = counts.drop_last();
        let k2 = kevs.drop_last();
        let r2 = rs.drop_last();
        assert forall|i: int| 0 <= i < k2.len() implies automata_event(c2[i], #[trigger] k2[i], cnst, c2[i + 1], r2[i])
            && r2[i] is Some by {
            assert(k2[i] == kevs[i]);
            assert(automata_event(counts[i], kevs[i], cnst, counts[i + 1], rs[i]));
        }
        law_automata_run(c2, k2, cnst, r2);
        assert(automata_event(counts[n], kevs[n], cnst, counts[n + 1], rs[n]));
        lemma_automata_step(counts[n], kevs[n], cnst, counts[n + 1], rs[n]);
        assert(kevs.last() == kevs[n]);
        assert forall|k: Kc| #[trigger] counts.last().count(k) == net_presses(kevs, k) by {
            assert(c2.last() == counts[n]);
            assert(c2.last().count(k) == net_presses(k2, k));
        }
        assert forall|k: Kc| 0 <= #[trigger] net_presses(kevs, k) by {
            assert(c2.last().count(k) == net_presses(k2, k));
            assert(counts.last().count(k) == net_presses(kevs, k));
            if !kevs[n].kcset.has(k) {
                assert(0 <= net_presses(k2, k));
            }
        }
    }
    if counts.last().wf() {
        law_entries_are_nonzero_counts(counts.last());
        assert(Set::new(|k: Kc| counts.last().count(k) != 0) =~= Set::new(|k: Kc| net_presses(kevs, k) != 0));
    }
}

} // verus!
