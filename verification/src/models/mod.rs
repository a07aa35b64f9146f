pub mod count_map;
pub mod key_automata;
pub mod keyset;
pub mod layer;
pub mod layout;
pub mod qmk;
pub mod tests;
pub mod us;

use crate::constants::Constants;
use crate::models::count_map::{law_adjust_count, spec_press_to_count, CountMap};
use crate::models::key_automata::{first_refused, kc_refused, max_mod};
use crate::models::qmk::{phys_event, phys_event_allowed};
use crate::path::{moved_phys, press_events};
use crate::types::{Kc, KcSet, KeyEv, PhysEv};
use vstd::prelude::*;

verus! {

/// A keyboard: physical key events in, key code events out.
pub trait Model {
    /// The key codes of each physical key.
    spec fn model_layout(&self) -> Seq<KcSet>;

    /// How many times each physical key is held.
    spec fn model_phys(&self) -> CountMap<usize>;

    /// How many times each key code is held.
    spec fn model_keys(&self) -> CountMap<Kc>;

    /// Takes a physical key event and gives the key code events it produces; `None` when
    /// the keyboard refuses it.
    fn event(&mut self, pev: PhysEv, cnst: &Constants) -> (r: Option<Vec<KeyEv>>)
        requires
            old(self).model_phys().wf(),
            phys_event_allowed(old(self).model_phys(), old(self).model_keys(), old(self).model_layout(), pev),
        ensures
            final(self).model_phys().wf(),
            final(self).model_layout() == old(self).model_layout(),
            phys_event(
                old(self).model_phys(),
                old(self).model_keys(),
                old(self).model_layout(),
                pev,
                *cnst,
                final(self).model_phys(),
                final(self).model_keys(),
                r,
            ),
    ;

    /// The count of each held key code.
    fn kc_counts(&self) -> (r: &CountMap<Kc>)
        ensures
            *r == self.model_keys(),
            r.wf(),
    ;
}

/// The position of the first key code of `kcs`, from `i` on, whose count in `keys` moved by
/// `d` is refused; `kcs.len()` if there is none.
pub open spec fn refused_at(keys: spec_fn(Kc) -> int, kcs: Seq<Kc>, d: int, max_mod: int, i: int) -> int
    decreases kcs.len() - i,
{
    if i < 0 || i >= kcs.len() {
        kcs.len() as int
    } else if kc_refused(kcs[i], keys(kcs[i]) + d, max_mod) {
        i
    } else {
        refused_at(keys, kcs, d, max_mod, i + 1)
    }
}

proof fn lemma_refused_at(counts: CountMap<Kc>, keys: spec_fn(Kc) -> int, kcs: Seq<Kc>, d: int, mm: int, i: int)
    requires
        forall|k: Kc| #[trigger] keys(k) == counts.count(k),
    ensures
        first_refused(counts, kcs, d, mm, i) == refused_at(keys, kcs, d, mm, i),
    decreases kcs.len() - i,
{
    if 0 <= i < kcs.len() {
        lemma_refused_at(counts, keys, kcs, d, mm, i + 1);
        assert(keys(kcs[i]) == counts.count(kcs[i]));
    }
}

/// What a keyboard holding `phys` and `keys` (as counts) does with `pev`: the physical
/// key is counted in any case; if it is then held at most once, its key codes are counted
/// in order up to the first one refused (all of them when none is), and the events come out
/// only when none is refused.
pub open spec fn model_step(
    phys: spec_fn(usize) -> int,
    keys: spec_fn(Kc) -> int,
    layout: Seq<KcSet>,
    pev: PhysEv,
    cnst: Constants,
) -> (spec_fn(usize) -> int, spec_fn(Kc) -> int, Option<Seq<KeyEv>>) {
    let d = spec_press_to_count(pev.press);
    if 0 <= phys(pev.phys) + d <= 1 {
        let kcs = layout[pev.phys as int].mods_first();
        let f = refused_at(keys, kcs, d, max_mod(cnst), 0);
        let counted = if f < kcs.len() {
            kcs.take(f + 1)
        } else {
            kcs
        };
        (
            moved_phys(phys, pev),
            |k: Kc|
                if counted.contains(k) {
                    keys(k) + d
                } else {
                    keys(k)
                },
            if f == kcs.len() {
                Some(press_events(layout[pev.phys as int], pev.press))
            } else {
                None
            },
        )
    } else {
        (moved_phys(phys, pev), keys, None)
    }
}

/// The counts after the physical key events `pevs`, one after the other, and the key code
/// events given on the way (nothing for a refused one).
pub open spec fn model_run(
    phys: spec_fn(usize) -> int,
    keys: spec_fn(Kc) -> int,
    layout: Seq<KcSet>,
    pevs: Seq<PhysEv>,
    cnst: Constants,
) -> (spec_fn(usize) -> int, spec_fn(Kc) -> int, Seq<KeyEv>)
    decreases pevs.len(),
{
    if pevs.len() == 0 {
        (phys, keys, Seq::empty())
    } else {
        let s = model_run(phys, keys, layout, pevs.drop_last(), cnst);
        let e = model_step(s.0, s.1, layout, pevs.last(), cnst);
        (
            e.0,
            e.1,
            match e.2 {
                Some(evs) => s.2 + evs,
                None => s.2,
            },
        )
    }
}

/// `phys_event` told in counts, as `model_step` tells it.
proof fn lemma_model_step(
    before_phys: CountMap<usize>,
    before_keys: CountMap<Kc>,
    layout: Seq<KcSet>,
    pev: PhysEv,
    cnst: Constants,
    after_phys: CountMap<usize>,
    after_keys: CountMap<Kc>,
    r: Option<Vec<KeyEv>>,
)
    requires
        before_phys.wf(),
        i32::MIN <= before_phys.count(pev.phys) + spec_press_to_count(pev.press) <= i32::MAX,
        pev.phys < layout.len(),
        phys_event(before_phys, before_keys, layout, pev, cnst, after_phys, after_keys, r),
    ensures
        ({
            let e = model_step(
                |q: usize| before_phys.count(q),
                |k: Kc| before_keys.count(k),
                layout,
                pev,
                cnst,
            );
            &&& (|q: usize| after_phys.count(q)) == e.0
            &&& (|k: Kc| after_keys.count(k)) == e.1
            &&& r is Some <==> e.2 is Some
            &&& r matches Some(evs) ==> e.2 == Some(evs@)
        }),
{
    let ph = |q: usize| before_phys.count(q);
    let ks = |k: Kc| before_keys.count(k);
    let d = spec_press_to_count(pev.press);
    law_adjust_count(before_phys.entries(), pev.phys, pev.press, after_phys.entries());
    let e = model_step(ph, ks, layout, pev, cnst);
    assert((|q: usize| after_phys.count(q)) =~= e.0);
    if 0 <= before_phys.count(pev.phys) + d <= 1 {
        let kcs = layout[pev.phys as int].mods_first();
        lemma_refused_at(before_keys, ks, kcs, d, max_mod(cnst), 0);
        assert((|k: Kc| after_keys.count(k)) =~= e.1);
    } else {
        assert((|k: Kc| after_keys.count(k)) =~= e.1);
    }
}

/// The key code events that `model` gives for the physical key events `pevs`, one after
/// the other; a refused event gives nothing, and the model goes on from where it was left.
pub fn compute_kevs<T: Model>(model: T, pevs: &[PhysEv], cnst: &Constants) -> (r: Vec<KeyEv>)
    requires
        model.model_phys().wf(),
        forall|i: int| 0 <= i < pevs.len() ==> (#[trigger] pevs[i]).phys < model.model_layout().len(),
        forall|q: usize|
            i32::MIN + pevs.len() <= #[trigger] model.model_phys().count(q) <= i32::MAX - pevs.len(),
        forall|k: Kc|
            i32::MIN + pevs.len() <= #[trigger] model.model_keys().count(k) <= i32::MAX - pevs.len(),
    ensures
        r@ == model_run(
            |q: usize| model.model_phys().count(q),
            |k: Kc| model.model_keys().count(k),
            model.model_layout(),
            pevs@,
            *cnst,
        ).2,
{
    let ghost ph0 = |q: usize| model.model_phys().count(q);
    let ghost ks0 = |k: Kc| model.model_keys().count(k);
    let ghost layout = model.model_layout();
    let mut model = model;
    let mut kevs: Vec<KeyEv> = Vec::new();
    let mut i: usize = 0;
    while i < pevs.len()
        invariant
            i <= pevs.len(),
            model.model_phys().wf(),
            model.model_layout() == layout,
            forall|i: int| 0 <= i < pevs.len() ==> (#[trigger] pevs[i]).phys < layout.len(),
            (|q: usize| model.model_phys().count(q)) == model_run(ph0, ks0, layout, pevs@.take(i as int), *cnst).0,
            (|k: Kc| model.model_keys().count(k)) == model_run(ph0, ks0, layout, pevs@.take(i as int), *cnst).1,
            kevs@ == model_run(ph0, ks0, layout, pevs@.take(i as int), *cnst).2,
            forall|q: usize|
                i32::MIN + pevs.len() - i <= #[trigger] model.model_phys().count(q) <= i32::MAX - pevs.len() + i,
            forall|k: Kc|
                i32::MIN + pevs.len() - i <= #[trigger] model.model_keys().count(k) <= i32::MAX - pevs.len() + i,
        decreases pevs.len() - i,
    {
        let pev = pevs[i];
        let ghost bp = model.model_phys();
        let ghost bk = model.model_keys();
        proof {
            assert(pevs[i as int].phys < layout.len());
            assert(pevs@.take(i as int + 1).drop_last() =~= pevs@.take(i as int));
            assert(pevs@.take(i as int + 1).last() == pev);
        }
        let evs = model.event(pev, cnst);
        proof {
            lemma_model_step(bp, bk, layout, pev, *cnst, model.model_phys(), model.model_keys(), evs);
            let ph = |q: usize| bp.count(q);
            let ks = |k: Kc| bk.count(k);
            assert(ph == model_run(ph0, ks0, layout, pevs@.take(i as int), *cnst).0);
            assert(ks == model_run(ph0, ks0, layout, pevs@.take(i as int), *cnst).1);
            assert forall|q: usize|
                i32::MIN + pevs.len() - i - 1 <= #[trigger] model.model_phys().count(q) <= i32::MAX - pevs.len() + i + 1 by {
                assert((|q: usize| model.model_phys().count(q))(q) == model.model_phys().count(q));
                assert(ph(q) == bp.count(q));
            }
            assert forall|k: Kc|
                i32::MIN + pevs.len() - i - 1 <= #[trigger] model.model_keys().count(k) <= i32::MAX - pevs.len() + i + 1 by {
                assert((|k: Kc| model.model_keys().count(k))(k) == model.model_keys().count(k));
                assert(ks(k) == bk.count(k));
            }
        }
        match evs {
            Some(evs) => {
                let mut evs = evs;
                kevs.append(&mut evs);
            },
            None => {},
        }
        i = i + 1;
    }
    proof {
        assert(pevs@.take(pevs.len() as int) =~= pevs@);
    }
    kevs
}

} // verus!
