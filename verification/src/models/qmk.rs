use crate::constants::Constants;
use crate::models::count_map::{spec_press_to_count, CountMap};
use crate::models::key_automata::{automata_event, KeyAutomata};
use crate::models::layout::Layout;
use crate::models::Model;
use crate::types::{spec_is_mod, Kc, KcSet, KeyEv, PhysEv};
use vstd::prelude::*;

verus! {

/// A physical key event may be applied: no count leaves the `i32` range, and a key that is
/// let through exists in the layout.
pub open spec fn phys_event_allowed(
    phys: CountMap<usize>,
    keys: CountMap<Kc>,
    layout: Seq<KcSet>,
    pev: PhysEv,
) -> bool {
    let d = spec_press_to_count(pev.press);
    let c = phys.count(pev.phys) + d;
    &&& i32::MIN <= c <= i32::MAX
    &&& 0 <= c <= 1 ==> pev.phys < layout.len() && forall|k: Kc|
        layout[pev.phys as int].has(k) ==> i32::MIN <= #[trigger] keys.count(k) + d <= i32::MAX
}

/// The outcome of a physical key event: the press (or release) of `pev.phys` is counted;
/// if that key is now held at most once, the key codes it holds in `layout` are pressed
/// (or released), otherwise the event is refused (`None`).
pub open spec fn phys_event(
    phys_before: CountMap<usize>,
    keys_before: CountMap<Kc>,
    layout: Seq<KcSet>,
    pev: PhysEv,
    cnst: Constants,
    phys_after: CountMap<usize>,
    keys_after: CountMap<Kc>,
    r: Option<Vec<KeyEv>>,
) -> bool {
    let c = phys_before.count(pev.phys) + spec_press_to_count(pev.press);
    &&& phys_before.adjusted(pev.phys, pev.press, phys_after.entries())
    &&& phys_after.wf()
    &&& if 0 <= c <= 1 {
        automata_event(
            keys_before,
            KeyEv { kcset: layout[pev.phys as int], press: pev.press },
            cnst,
            keys_after,
            r,
        )
    } else {
        r is None && keys_after == keys_before
    }
}

/// Whether pressing (or releasing) a physical key holding `kcset` makes progress towards
/// the key code event `kev` without producing anything else.
pub open spec fn is_edge(kcset: KcSet, kev: KeyEv) -> bool {
    (forall|k: Kc| kcset.has(k) ==> kev.kcset.has(k)) && !(forall|k: Kc| !kcset.has(k))
}

/// The physical key just before `p` holds key codes, and none of them a modifier.
///
/// The one case this rule is drawn from is pressing `A` on the keys `Super`, `Ctrl`, `C`,
/// `A`, empty, which rolls from `A` onto `C` (and pressing `C`, just after the modifier
/// `Ctrl`, does not roll). Nothing else says when a press rolls; this condition
/// generalises that one case, and keeps modifiers out of rolls.
pub open spec fn rolls_onto(layout: Seq<KcSet>, p: int) -> bool {
    let prev = layout[p - 1];
    &&& p > 0
    &&& !(forall|k: Kc| !#[trigger] prev.has(k))
    &&& forall|k: Kc| #[trigger] prev.has(k) ==> !spec_is_mod(k)
}

/// The physical key events tried with key `p` towards `kev`: its release for a release; for
/// a press, its press, or the roll press `p`, release `p`, press `p - 1` when `p` rolls onto
/// its neighbour.
pub open spec fn edge_pevs(layout: Seq<KcSet>, kev: KeyEv, p: int) -> Seq<PhysEv> {
    if kev.press && rolls_onto(layout, p) {
        seq![
            PhysEv { phys: p as usize, press: true },
            PhysEv { phys: p as usize, press: false },
            PhysEv { phys: (p - 1) as usize, press: true },
        ]
    } else {
        seq![PhysEv { phys: p as usize, press: kev.press }]
    }
}

/// A keyboard running QMK firmware with a given layout.
#[derive(Debug, PartialEq, Eq, Hash)]
pub struct QmkModel<'a> {
    l: &'a Layout,
    phys: CountMap<usize>,
    ks: KeyAutomata,
}

impl<'a> Clone for QmkModel<'a> {
    fn clone(&self) -> (r: Self)
        ensures
            r.layout() == self.layout(),
            r.phys_counts().entries() == self.phys_counts().entries(),
            r.key_counts().entries() == self.key_counts().entries(),
            r.wf() == self.wf(),
    {
        QmkModel { l: self.l, phys: self.phys.clone(), ks: self.ks.clone() }
    }
}

impl<'a> QmkModel<'a> {
    /// The layout.
    pub closed spec fn layout(self) -> Seq<KcSet> {
        self.l.keys@
    }

    /// How many times each physical key is held.
    pub closed spec fn phys_counts(self) -> CountMap<usize> {
        self.phys
    }

    /// How many times each key code is held.
    pub closed spec fn key_counts(self) -> CountMap<Kc> {
        self.ks.counts()
    }

    /// The counts are well formed.
    pub open spec fn wf(self) -> bool {
        self.phys_counts().wf()
    }

    pub fn new(layout: &'a Layout) -> (r: Self)
        ensures
            r.layout() == layout.keys@,
            r.phys_counts().entries() == Seq::<(usize, i32)>::empty(),
            r.key_counts().entries() == Seq::<(Kc, i32)>::empty(),
            r.wf(),
    {
        Self { l: layout, phys: CountMap::new(), ks: KeyAutomata::new() }
    }

    /// Whether `o` holds the same physical keys and key codes, entry for entry.
    pub fn same_counts(&self, o: &QmkModel) -> (r: bool)
        ensures
            r == (self.phys_counts().entries() == o.phys_counts().entries()
                && self.key_counts().entries() == o.key_counts().entries()),
    {
        self.phys.same_entries(&o.phys) && self.ks.kc_counts().same_entries(o.ks.kc_counts())
    }

    /// The sequences of physical key events worth trying to produce `kev`, one per
    /// non-empty physical key whose key codes all belong to `kev`, in key order. A release
    /// releases that key. A press presses it; when the physical key just before it holds key
    /// codes and none of them a modifier, the press rolls onto that neighbour instead: press
    /// the key, release it, press the neighbour (see `rolls_onto` for where that rule comes
    /// from).
    pub fn key_ev_edges(&self, kev: KeyEv) -> (r: Vec<Vec<PhysEv>>)
        ensures
            r@.map_values(|v: Vec<PhysEv>| v@) == Seq::new(self.layout().len(), |i: int| i).filter(
                |i: int| is_edge(self.layout()[i], kev),
            ).map_values(|i: int| edge_pevs(self.layout(), kev, i)),
    {
        let ghost idx = Seq::new(self.layout().len(), |i: int| i);
        let ghost pred = |i: int| is_edge(self.layout()[i], kev);
        let ghost f = |i: int| edge_pevs(self.layout(), kev, i);
        let mut edges: Vec<Vec<PhysEv>> = Vec::new();
        let mut phys: usize = 0;
        while phys < self.l.keys.len()
            invariant
                phys <= self.l.keys.len(),
                idx == Seq::new(self.layout().len(), |i: int| i),
                pred == (|i: int| is_edge(self.layout()[i], kev)),
                f == (|i: int| edge_pevs(self.layout(), kev, i)),
                edges@.map_values(|v: Vec<PhysEv>| v@) == idx.take(phys as int).filter(pred).map_values(f),
            decreases self.l.keys.len() - phys,
        {
            let kcset = self.l.keys[phys];
            proof {
                assert(idx.take(phys as int + 1) =~= idx.take(phys as int).push(phys as int));
                idx.take(phys as int).lemma_filter_push(phys as int, pred);
            }
            if kev.kcset.is_superset(&kcset) && !kcset.is_empty() {
                let mut roll = false;
                if kev.press && phys > 0 {
                    let prev = self.l.keys[phys - 1];
                    let m = prev.mods();
                    roll = !prev.is_empty() && m.is_empty();
                    proof {
                        let layout = self.layout();
                        assert(prev == layout[phys as int - 1]);
                        KcSet::lemma_values(prev, prev);
                        assert(m == prev.spec_mods());
                        if roll {
                            assert forall|k: Kc| #[trigger] prev.has(k) implies !spec_is_mod(k) by {
                                assert(!m.has(k));
                            }
                        } else if !(forall|k: Kc| !prev.has(k)) {
                            assert(!(forall|k: Kc| !m.has(k)));
                            let k = choose|k: Kc| m.has(k);
                            assert(prev.has(k) && spec_is_mod(k));
                            assert(!rolls_onto(layout, phys as int));
                        }
                        assert(roll == rolls_onto(layout, phys as int));
                    }
                }
                let mut v: Vec<PhysEv> = Vec::new();
                v.push(PhysEv::new(phys, kev.press));
                if roll {
                    v.push(PhysEv::new(phys, false));
                    v.push(PhysEv::new(phys - 1, true));
                }
                proof {
                    assert(roll == (kev.press && rolls_onto(self.layout(), phys as int)));
                    assert(v@ =~= f(phys as int));
                }
                let ghost old_edges = edges@;
                edges.push(v);
                proof {
                    assert(pred(phys as int));
                    let fl = idx.take(phys as int).filter(pred);
                    assert(fl.push(phys as int).map_values(f) =~= fl.map_values(f).push(f(phys as int)));
                    assert(edges@.map_values(|v: Vec<PhysEv>| v@) =~= old_edges.map_values(|v: Vec<PhysEv>| v@).push(v@));
                    assert(edges@.map_values(|v: Vec<PhysEv>| v@) =~= idx.take(phys as int + 1).filter(
                        pred,
                    ).map_values(f));
                }
            } else {
                proof {
                    assert(!pred(phys as int));
                }
            }
            phys = phys + 1;
        }
        proof {
            assert(idx.take(self.layout().len() as int) =~= idx);
        }
        edges
    }
}

impl<'a> Model for QmkModel<'a> {
    open spec fn model_layout(&self) -> Seq<KcSet> {
        self.layout()
    }

    open spec fn model_phys(&self) -> CountMap<usize> {
        self.phys_counts()
    }

    open spec fn model_keys(&self) -> CountMap<Kc> {
        self.key_counts()
    }

    /// Applies a physical key event; `None` when the key would be held more than once or
    /// released more often than pressed, or when the key codes it holds are refused.
    fn event(&mut self, pev: PhysEv, cnst: &Constants) -> (r: Option<Vec<KeyEv>>) {
        let c = self.phys.adjust_count(pev.phys, pev.press);
        if !(0 <= c && c <= 1) {
            return None;  // Don't allow pressing the same physical key multiple times.
        }
        let kev = KeyEv::new(self.l.keys[pev.phys], pev.press);
        self.ks.event(kev, cnst)
    }

    /// The count of each held key code.
    fn kc_counts(&self) -> (r: &CountMap<Kc>) {
        self.ks.kc_counts()
    }
}

} // verus!
