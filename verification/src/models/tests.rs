use crate::models::count_map::CountMap;
use crate::types::{Kc, KcSet};
use vstd::prelude::*;

verus! {

/// The counts after pressing each key code of `kcset` once more.
pub fn merge_kcm(kcm: CountMap<Kc>, kcset: KcSet) -> (r: CountMap<Kc>)
    requires
        kcm.wf(),
        forall|k: Kc| kcset.has(k) ==> #[trigger] kcm.count(k) < i32::MAX,
    ensures
        r.wf(),
        forall|k: Kc| #[trigger] r.count(k) == kcm.count(k) + if kcset.has(k) { 1int } else { 0int },
{
    proof {
        kcset.lemma_elems();
    }
    let kcs = kcset.to_vec();
    let mut kcm = kcm;
    let ghost kcm0 = kcm;
    let mut i: usize = 0;
    while i < kcs.len()
        invariant
            kcs@ == kcset.elems(),
            kcs@.no_duplicates(),
            forall|k: Kc| #[trigger] kcs@.contains(k) <==> kcset.has(k),
            i <= kcs.len(),
            kcm.wf(),
            kcm0.wf(),
            forall|k: Kc| kcset.has(k) ==> #[trigger] kcm0.count(k) < i32::MAX,
            forall|k: Kc| #[trigger] kcm.count(k) == kcm0.count(k) + if kcs@.take(i as int).contains(k) {
                1int
            } else {
                0int
            },
        decreases kcs.len() - i,
    {
        let kc = kcs[i];
        proof {
            assert(kcs@.contains(kc));
            assert(!kcs@.take(i as int).contains(kc)) by {
                if kcs@.take(i as int).contains(kc) {
                    let w = choose|w: int| 0 <= w < i && kcs@.take(i as int)[w] == kc;
                    assert(kcs@[w] == kcs@[i as int]);
                }
            }
            assert(kcs@.take(i as int + 1) =~= kcs@.take(i as int).push(kc));
            crate::models::count_map::lemma_push_contains(kcs@.take(i as int), kc);
        }
        kcm.adjust_count(kc, true);
        i = i + 1;
    }
    proof {
        assert(kcs@.take(kcs@.len() as int) =~= kcs@);
    }
    kcm
}

/// The counts of holding each key code of `kcset` once.
pub fn kcm(kcset: KcSet) -> (r: CountMap<Kc>)
    ensures
        r.wf(),
        forall|k: Kc| #[trigger] r.count(k) == if kcset.has(k) { 1int } else { 0int },
{
    let kcm = CountMap::new();
    proof {
        assert forall|k: Kc| #[trigger] kcm.count(k) == 0 by {
            crate::models::count_map::lemma_count_empty(kcm.entries(), k);
        }
    }
    merge_kcm(kcm, kcset)
}

} // verus!
