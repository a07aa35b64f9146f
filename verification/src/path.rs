use crate::constants::Constants;
use crate::models::count_map::{law_adjust_count, lemma_count_empty, lemma_push_contains, spec_press_to_count};
use crate::models::key_automata::{first_refused, kc_refused, lemma_first_refused, max_mod};
use crate::models::layout::Layout;
use crate::models::qmk::{edge_pevs, is_edge, phys_event, QmkModel};
use crate::models::Model;
use crate::types::{Kc, KcSet, KeyEv, PhysEv, NUM_KC};
use priority_queue::PriorityQueue;
use vstd::prelude::*;

verus! {

#[verifier::external_type_specification]
#[verifier::external_body]
#[verifier::reject_recursive_types(I)]
#[verifier::reject_recursive_types(P)]
#[verifier::reject_recursive_types(H)]
pub struct ExPriorityQueue<I, P, H>(PriorityQueue<I, P, H>);

/// What a priority queue of search states holds: the priority of each state in it.
pub uninterp spec fn queued(q: PriorityQueue<u64, i64>) -> Map<u64, i64>;

/// `PriorityQueue::new`: a queue holding nothing.
#[verifier::external_body]
fn queue_new() -> (r: PriorityQueue<u64, i64>)
    ensures
        queued(r).dom() == Set::<u64>::empty(),
{
    PriorityQueue::new()
}

/// `PriorityQueue::push`: `item` gets `priority`, and is added if it was not in the queue;
/// its old priority, if it had one, is returned.
#[verifier::external_body]
fn queue_push(q: &mut PriorityQueue<u64, i64>, item: u64, priority: i64) -> (r: Option<i64>)
    ensures
        queued(*final(q)) == queued(*old(q)).insert(item, priority),
        queued(*old(q)).contains_key(item) ==> r == Some(queued(*old(q))[item]),
        !queued(*old(q)).contains_key(item) ==> r is None,
{
    q.push(item, priority)
}

/// `PriorityQueue::push_increase`: an item not in the queue is added with `priority`
/// (`None`); one in it with a lower priority gets `priority` (its old priority is
/// returned); one in it with an equal or higher priority is left as it is (`priority` is
/// returned).
#[verifier::external_body]
fn queue_push_increase(q: &mut PriorityQueue<u64, i64>, item: u64, priority: i64) -> (r: Option<i64>)
    ensures
        !queued(*old(q)).contains_key(item) ==> r is None && queued(*final(q)) == queued(*old(q)).insert(
            item,
            priority,
        ),
        queued(*old(q)).contains_key(item) && queued(*old(q))[item] < priority ==> r == Some(
            queued(*old(q))[item],
        ) && queued(*final(q)) == queued(*old(q)).insert(item, priority),
        queued(*old(q)).contains_key(item) && priority <= queued(*old(q))[item] ==> r == Some(priority)
            && queued(*final(q)) == queued(*old(q)),
{
    q.push_increase(item, priority)
}

/// `PriorityQueue::pop`: takes out an item of the greatest priority, with that priority;
/// `None` when the queue holds nothing. Which of several items of that priority comes out
/// is left unsaid.
#[verifier::external_body]
fn queue_pop(q: &mut PriorityQueue<u64, i64>) -> (r: Option<(u64, i64)>)
    ensures
        r is None <==> queued(*old(q)).dom() == Set::<u64>::empty(),
        r is None ==> queued(*final(q)) == queued(*old(q)),
        r matches Some(e) ==> {
            &&& queued(*old(q)).contains_key(e.0)
            &&& queued(*old(q))[e.0] == e.1
            &&& forall|j: u64| #[trigger] queued(*old(q)).contains_key(j) ==> queued(*old(q))[j] <= e.1
            &&& queued(*final(q)) == queued(*old(q)).remove(e.0)
        },
{
    q.pop()
}

/// `PriorityQueue::remove`: takes `item` out of the queue, with its priority; `None` when
/// it is not in the queue.
#[verifier::external_body]
fn queue_remove(q: &mut PriorityQueue<u64, i64>, item: u64) -> (r: Option<(u64, i64)>)
    ensures
        queued(*old(q)).contains_key(item) ==> r == Some((item, queued(*old(q))[item]))
            && queued(*final(q)) == queued(*old(q)).remove(item),
        !queued(*old(q)).contains_key(item) ==> r is None && queued(*final(q)) == queued(*old(q)),
{
    q.remove(&item)
}

/// The key code events that pressing (or releasing) a physical key holding `kcset` gives:
/// one per key code, the modifiers first.
pub open spec fn press_events(kcset: KcSet, press: bool) -> Seq<KeyEv> {
    kcset.mods_first().map_values(|k: Kc| KeyEv { kcset: KcSet::spec_single(k), press: press })
}

/// The corpus `kevs`, read from position `idx`, agrees with `evs` as far as it goes.
pub open spec fn events_agree(kevs: Seq<KeyEv>, idx: int, evs: Seq<KeyEv>) -> bool {
    forall|j: int| 0 <= j < evs.len() && idx + j < kevs.len() ==> #[trigger] evs[j] == kevs[idx + j]
}

/// A keyboard holding physical keys `phys` and key codes `keys` (as counts) accepts `pev`:
/// the physical key stays held at most once, and no key code it holds is refused.
pub open spec fn pev_accepted(
    phys: spec_fn(usize) -> int,
    keys: spec_fn(Kc) -> int,
    layout: Seq<KcSet>,
    pev: PhysEv,
    cnst: Constants,
) -> bool {
    let d = spec_press_to_count(pev.press);
    &&& pev.phys < layout.len()
    &&& 0 <= phys(pev.phys) + d <= 1
    &&& forall|k: Kc| #[trigger] layout[pev.phys as int].has(k) ==> !kc_refused(k, keys(k) + d, max_mod(cnst))
}

/// The physical key counts after `pev`.
pub open spec fn moved_phys(phys: spec_fn(usize) -> int, pev: PhysEv) -> spec_fn(usize) -> int {
    |q: usize| if q == pev.phys { phys(q) + spec_press_to_count(pev.press) } else { phys(q) }
}

/// The key code counts after the key codes `kcset` are pressed (or released).
pub open spec fn moved_keys(keys: spec_fn(Kc) -> int, kcset: KcSet, press: bool) -> spec_fn(Kc) -> int {
    |k: Kc| if kcset.has(k) { keys(k) + spec_press_to_count(press) } else { keys(k) }
}

/// The physical key counts of a keyboard state.
pub open spec fn phys_of(q: QmkModel) -> spec_fn(usize) -> int {
    |p: usize| q.phys_counts().count(p)
}

/// The key code counts of a keyboard state.
pub open spec fn keys_of(q: QmkModel) -> spec_fn(Kc) -> int {
    |k: Kc| q.key_counts().count(k)
}

/// What `QmkModel::event` does, told in counts: the event is let through exactly when it
/// is accepted, and then gives one event per key code and moves the counts.
proof fn lemma_qmk_event(a: QmkModel, pev: PhysEv, cnst: Constants, b: QmkModel, r: Option<Vec<KeyEv>>)
    requires
        a.wf(),
        pev.phys < a.layout().len(),
        0 <= a.phys_counts().count(pev.phys) <= 1,
        phys_event(a.phys_counts(), a.key_counts(), a.layout(), pev, cnst, b.phys_counts(), b.key_counts(), r),
    ensures
        r is Some <==> pev_accepted(phys_of(a), keys_of(a), a.layout(), pev, cnst),
        r matches Some(evs) ==> {
            &&& evs@ == press_events(a.layout()[pev.phys as int], pev.press)
            &&& phys_of(b) == moved_phys(phys_of(a), pev)
            &&& keys_of(b) == moved_keys(keys_of(a), a.layout()[pev.phys as int], pev.press)
        },
{
    let d = spec_press_to_count(pev.press);
    let kcset = a.layout()[pev.phys as int];
    let kcs = kcset.mods_first();
    let mm = max_mod(cnst);
    law_adjust_count(a.phys_counts().entries(), pev.phys, pev.press, b.phys_counts().entries());
    kcset.lemma_mods_first();
    lemma_first_refused(a.key_counts(), kcs, d, mm, 0);
    let c = a.phys_counts().count(pev.phys) + d;
    if 0 <= c <= 1 {
        let f = first_refused(a.key_counts(), kcs, d, mm, 0);
        assert((forall|j: int| 0 <= j < kcs.len() ==> !kc_refused(#[trigger] kcs[j], a.key_counts().count(kcs[j]) + d, mm))
            <==> (forall|k: Kc| #[trigger] kcset.has(k) ==> !kc_refused(k, keys_of(a)(k) + d, mm))) by {
            if forall|j: int| 0 <= j < kcs.len() ==> !kc_refused(#[trigger] kcs[j], a.key_counts().count(kcs[j]) + d, mm) {
                assert forall|k: Kc| #[trigger] kcset.has(k) implies !kc_refused(k, keys_of(a)(k) + d, mm) by {
                    assert(kcs.contains(k));
                    let j = choose|j: int| 0 <= j < kcs.len() && kcs[j] == k;
                }
            }
            if forall|k: Kc| #[trigger] kcset.has(k) ==> !kc_refused(k, keys_of(a)(k) + d, mm) {
                assert forall|j: int| 0 <= j < kcs.len() implies !kc_refused(#[trigger] kcs[j], a.key_counts().count(kcs[j]) + d, mm) by {
                    assert(kcs.contains(kcs[j]));
                    assert(kcset.has(kcs[j]));
                }
            }
        }
        if r is Some {
            assert(f == kcs.len());
            assert(phys_of(b) =~= moved_phys(phys_of(a), pev));
            assert(kcs.take(kcs.len() as int) =~= kcs);
            assert(keys_of(b) =~= moved_keys(keys_of(a), kcset, pev.press));
        }
    }
}

/// The counts after the physical key events `pevs`, one after the other.
pub open spec fn run_counts(
    phys: spec_fn(usize) -> int,
    keys: spec_fn(Kc) -> int,
    layout: Seq<KcSet>,
    pevs: Seq<PhysEv>,
) -> (spec_fn(usize) -> int, spec_fn(Kc) -> int)
    decreases pevs.len(),
{
    if pevs.len() == 0 {
        (phys, keys)
    } else {
        let s = run_counts(phys, keys, layout, pevs.drop_last());
        let pev = pevs.last();
        (moved_phys(s.0, pev), moved_keys(s.1, layout[pev.phys as int], pev.press))
    }
}

/// Each of the physical key events `pevs` is accepted in turn.
pub open spec fn run_accepted(
    phys: spec_fn(usize) -> int,
    keys: spec_fn(Kc) -> int,
    layout: Seq<KcSet>,
    pevs: Seq<PhysEv>,
    cnst: Constants,
) -> bool
    decreases pevs.len(),
{
    pevs.len() == 0 || {
        let s = run_counts(phys, keys, layout, pevs.drop_last());
        run_accepted(phys, keys, layout, pevs.drop_last(), cnst) && pev_accepted(
            s.0,
            s.1,
            layout,
            pevs.last(),
            cnst,
        )
    }
}

/// The key code events that the physical key events `pevs` give, in order.
pub open spec fn run_events(layout: Seq<KcSet>, pevs: Seq<PhysEv>) -> Seq<KeyEv>
    decreases pevs.len(),
{
    if pevs.len() == 0 {
        Seq::empty()
    } else {
        run_events(layout, pevs.drop_last()) + press_events(layout[pevs.last().phys as int], pevs.last().press)
    }
}

proof fn lemma_run_accepted_prefix(
    phys: spec_fn(usize) -> int,
    keys: spec_fn(Kc) -> int,
    layout: Seq<KcSet>,
    pevs: Seq<PhysEv>,
    cnst: Constants,
    j: int,
)
    requires
        run_accepted(phys, keys, layout, pevs, cnst),
        0 <= j <= pevs.len(),
    ensures
        run_accepted(phys, keys, layout, pevs.take(j), cnst),
    decreases pevs.len(),
{
    if j == pevs.len() {
        assert(pevs.take(j) =~= pevs);
    } else {
        assert(pevs.drop_last().take(j) =~= pevs.take(j));
        lemma_run_accepted_prefix(phys, keys, layout, pevs.drop_last(), cnst, j);
    }
}

proof fn lemma_run_events_len(layout: Seq<KcSet>, pevs: Seq<PhysEv>)
    ensures
        run_events(layout, pevs).len() <= 2 * NUM_KC * pevs.len(),
    decreases pevs.len(),
{
    if pevs.len() > 0 {
        lemma_run_events_len(layout, pevs.drop_last());
        layout[pevs.last().phys as int].lemma_mods_first_len();
        let n = pevs.len() as int;
        assert(2 * NUM_KC * n == 2 * NUM_KC * (n - 1) + 2 * NUM_KC) by (nonlinear_arith);
    }
}

/// The total cost of the physical keys of `pevs`.
pub open spec fn pevs_cost(costs: Seq<u64>, pevs: Seq<PhysEv>) -> int
    decreases pevs.len(),
{
    if pevs.len() == 0 {
        0
    } else {
        pevs_cost(costs, pevs.drop_last()) + costs[pevs.last().phys as int]
    }
}

proof fn lemma_pevs_cost_prefix(costs: Seq<u64>, pevs: Seq<PhysEv>, j: int)
    requires
        0 <= j <= pevs.len(),
        forall|i: int| 0 <= i < pevs.len() ==> (#[trigger] pevs[i]).phys < costs.len(),
    ensures
        0 <= pevs_cost(costs, pevs.take(j)) <= pevs_cost(costs, pevs),
    decreases pevs.len(),
{
    if pevs.len() > 0 {
        if j == pevs.len() {
            assert(pevs.take(j) =~= pevs);
            lemma_pevs_cost_prefix(costs, pevs.drop_last(), j - 1);
            assert(pevs.drop_last().take(j - 1) =~= pevs.drop_last());
        } else {
            assert(pevs.drop_last().take(j) =~= pevs.take(j));
            lemma_pevs_cost_prefix(costs, pevs.drop_last(), j);
        }
    }
}

/// The state of the search before anything is typed: nothing held, at the start of the
/// corpus.
pub open spec fn start_state() -> (spec_fn(usize) -> int, spec_fn(Kc) -> int, int) {
    (|q: usize| 0int, |k: Kc| 0int, 0int)
}

/// The state of the search that node `n` stands for.
pub open spec fn node_state(n: Node) -> (spec_fn(usize) -> int, spec_fn(Kc) -> int, int) {
    (phys_of(n.qmk), keys_of(n.qmk), n.idx as int)
}

/// The physical key events that step `p` tries from state `s`: those of key `p` towards the
/// next corpus event.
pub open spec fn step_pevs(
    layout: Seq<KcSet>,
    kevs: Seq<KeyEv>,
    s: (spec_fn(usize) -> int, spec_fn(Kc) -> int, int),
    p: int,
) -> Seq<PhysEv> {
    edge_pevs(layout, kevs[s.2], p)
}

/// Physical key `p` is a step of the search from state `s`: the corpus is not typed yet,
/// `p` holds only key codes of the next corpus event (at least one), the keyboard accepts
/// each of the step's physical key events in turn, and the events they give are those of
/// the corpus.
pub open spec fn step_valid(
    layout: Seq<KcSet>,
    kevs: Seq<KeyEv>,
    cnst: Constants,
    s: (spec_fn(usize) -> int, spec_fn(Kc) -> int, int),
    p: int,
) -> bool {
    let pevs = step_pevs(layout, kevs, s, p);
    &&& 0 <= s.2 < kevs.len()
    &&& 0 <= p < layout.len()
    &&& is_edge(layout[p], kevs[s.2])
    &&& run_accepted(s.0, s.1, layout, pevs, cnst)
    &&& events_agree(kevs, s.2, run_events(layout, pevs))
}

/// The state after step `p` from `s`.
pub open spec fn step_state(
    layout: Seq<KcSet>,
    kevs: Seq<KeyEv>,
    s: (spec_fn(usize) -> int, spec_fn(Kc) -> int, int),
    p: int,
) -> (spec_fn(usize) -> int, spec_fn(Kc) -> int, int) {
    let pevs = step_pevs(layout, kevs, s, p);
    let c = run_counts(s.0, s.1, layout, pevs);
    (c.0, c.1, s.2 + run_events(layout, pevs).len())
}

/// The state after the steps `ps` from the start.
pub open spec fn walk_state(layout: Seq<KcSet>, kevs: Seq<KeyEv>, ps: Seq<int>) -> (
    spec_fn(usize) -> int,
    spec_fn(Kc) -> int,
    int,
)
    decreases ps.len(),
{
    if ps.len() == 0 {
        start_state()
    } else {
        step_state(layout, kevs, walk_state(layout, kevs, ps.drop_last()), ps.last())
    }
}

/// Each of `ps` is a step of the search from the state the ones before it reach.
pub open spec fn walk_valid(layout: Seq<KcSet>, kevs: Seq<KeyEv>, cnst: Constants, ps: Seq<int>) -> bool
    decreases ps.len(),
{
    ps.len() == 0 || (walk_valid(layout, kevs, cnst, ps.drop_last()) && step_valid(
        layout,
        kevs,
        cnst,
        walk_state(layout, kevs, ps.drop_last()),
        ps.last(),
    ))
}

/// The cost of the physical key events of the steps `ps`.
pub open spec fn walk_cost(layout: Seq<KcSet>, kevs: Seq<KeyEv>, costs: Seq<u64>, ps: Seq<int>) -> int
    decreases ps.len(),
{
    if ps.len() == 0 {
        0
    } else {
        walk_cost(layout, kevs, costs, ps.drop_last()) + pevs_cost(
            costs,
            step_pevs(layout, kevs, walk_state(layout, kevs, ps.drop_last()), ps.last()),
        )
    }
}

proof fn lemma_walk_push(
    layout: Seq<KcSet>,
    kevs: Seq<KeyEv>,
    cnst: Constants,
    costs: Seq<u64>,
    ps: Seq<int>,
    p: int,
)
    ensures
        walk_valid(layout, kevs, cnst, ps.push(p)) == (walk_valid(layout, kevs, cnst, ps) && step_valid(
            layout,
            kevs,
            cnst,
            walk_state(layout, kevs, ps),
            p,
        )),
        walk_state(layout, kevs, ps.push(p)) == step_state(layout, kevs, walk_state(layout, kevs, ps), p),
        walk_cost(layout, kevs, costs, ps.push(p)) == walk_cost(layout, kevs, costs, ps) + pevs_cost(
            costs,
            step_pevs(layout, kevs, walk_state(layout, kevs, ps), p),
        ),
{
    assert(ps.push(p).drop_last() =~= ps);
}

/// The largest of the first `n` costs (zero when there are none).
pub open spec fn max_cost(costs: Seq<u64>, n: int) -> int
    decreases n,
{
    if n <= 0 {
        0
    } else if max_cost(costs, n - 1) < costs[n - 1] {
        costs[n - 1] as int
    } else {
        max_cost(costs, n - 1)
    }
}

proof fn lemma_max_cost(costs: Seq<u64>, n: int, p: int)
    requires
        0 <= p < n <= costs.len(),
    ensures
        costs[p] <= max_cost(costs, n),
        0 <= max_cost(costs, n),
    decreases n,
{
    if p < n - 1 {
        lemma_max_cost(costs, n - 1, p);
    } else if n > 1 {
        lemma_max_cost(costs, n - 1, 0);
    }
}

/// `b` to the power `e`.
pub open spec fn pw(b: nat, e: nat) -> nat
    decreases e,
{
    if e == 0 {
        1
    } else {
        b * pw(b, (e - 1) as nat)
    }
}

proof fn lemma_pw_mono(b: nat, e1: nat, e2: nat)
    requires
        1 <= b,
        e1 <= e2,
    ensures
        1 <= pw(b, e1) <= pw(b, e2),
    decreases e2,
{
    if e2 > 0 {
        if e1 == e2 {
            lemma_pw_mono(b, (e1 - 1) as nat, (e2 - 1) as nat);
        } else {
            lemma_pw_mono(b, e1, (e2 - 1) as nat);
        }
        let x = pw(b, (e2 - 1) as nat);
        assert(x <= b * x) by (nonlinear_arith)
            requires
                1 <= b,
                1 <= x,
        ;
    }
}

/// How much a queued search state at position `idx` may still cost the search: every step
/// moves at least one event on, and there are at most `np` steps from each state.
pub open spec fn weight_of(np: nat, len: int, idx: int) -> nat {
    if idx < len {
        pw(np + 1, (len - idx) as nat)
    } else {
        1
    }
}

/// The total weight of the states `pend`, each weighed by `w`.
pub open spec fn wsum(pend: Seq<u64>, w: spec_fn(u64) -> nat) -> nat
    decreases pend.len(),
{
    if pend.len() == 0 {
        0
    } else {
        wsum(pend.drop_last(), w) + w(pend.last())
    }
}

proof fn lemma_wsum_remove(pend: Seq<u64>, w: spec_fn(u64) -> nat, i: int)
    requires
        0 <= i < pend.len(),
    ensures
        wsum(pend, w) == wsum(pend.remove(i), w) + w(pend[i]),
    decreases pend.len(),
{
    if i < pend.len() - 1 {
        lemma_wsum_remove(pend.drop_last(), w, i);
        assert(pend.drop_last().remove(i) =~= pend.remove(i).drop_last());
    } else {
        assert(pend.remove(i) =~= pend.drop_last());
    }
}

proof fn lemma_wsum_congruent(pend: Seq<u64>, w1: spec_fn(u64) -> nat, w2: spec_fn(u64) -> nat)
    requires
        forall|j: int| 0 <= j < pend.len() ==> w1(#[trigger] pend[j]) == w2(pend[j]),
    ensures
        wsum(pend, w1) == wsum(pend, w2),
    decreases pend.len(),
{
    if pend.len() > 0 {
        assert forall|j: int| 0 <= j < pend.drop_last().len() implies w1(#[trigger] pend.drop_last()[j]) == w2(
            pend.drop_last()[j],
        ) by {
            assert(pend.drop_last()[j] == pend[j]);
        }
        lemma_wsum_congruent(pend.drop_last(), w1, w2);
    }
}

/// When the start is among the states `sts` and every step from one of them reaches one of
/// them, every walk ends in one of them.
proof fn lemma_walks_closed(
    layout: Seq<KcSet>,
    kevs: Seq<KeyEv>,
    cnst: Constants,
    sts: Seq<(spec_fn(usize) -> int, spec_fn(Kc) -> int, int)>,
    ps: Seq<int>,
)
    requires
        walk_valid(layout, kevs, cnst, ps),
        sts.contains(start_state()),
        forall|i: int, p: int|
            0 <= i < sts.len() && #[trigger] step_valid(layout, kevs, cnst, sts[i], p) ==> sts.contains(
                step_state(layout, kevs, sts[i], p),
            ),
    ensures
        sts.contains(walk_state(layout, kevs, ps)),
    decreases ps.len(),
{
    if ps.len() > 0 {
        lemma_walks_closed(layout, kevs, cnst, sts, ps.drop_last());
        let s = walk_state(layout, kevs, ps.drop_last());
        let i = choose|i: int| 0 <= i < sts.len() && sts[i] == s;
        assert(step_valid(layout, kevs, cnst, sts[i], ps.last()));
    }
}

/// The weight of each state of `sts`, by its position.
pub open spec fn weights(
    np: nat,
    len: int,
    sts: Seq<(spec_fn(usize) -> int, spec_fn(Kc) -> int, int)>,
) -> spec_fn(u64) -> nat {
    |id: u64| weight_of(np, len, sts[id as int].2)
}

/// The physical key events of an edge: one to three, each on a key of the layout that
/// holds key codes.
proof fn lemma_edge_pevs(layout: Seq<KcSet>, kev: KeyEv, p: int)
    requires
        0 <= p < layout.len(),
        layout.len() <= usize::MAX,
        is_edge(layout[p], kev),
    ensures
        1 <= edge_pevs(layout, kev, p).len() <= 3,
        forall|i: int|
            0 <= i < edge_pevs(layout, kev, p).len() ==> (#[trigger] edge_pevs(layout, kev, p)[i]).phys
                < layout.len() && !(forall|k: Kc| !layout[edge_pevs(layout, kev, p)[i].phys as int].has(k)),
{
}

/// A run on keys that hold key codes gives at least one event per physical key event.
proof fn lemma_run_events_min(layout: Seq<KcSet>, pevs: Seq<PhysEv>)
    requires
        forall|i: int|
            0 <= i < pevs.len() ==> (#[trigger] pevs[i]).phys < layout.len() && !(forall|k: Kc|
                !layout[pevs[i].phys as int].has(k)),
    ensures
        pevs.len() <= run_events(layout, pevs).len(),
    decreases pevs.len(),
{
    if pevs.len() > 0 {
        assert forall|i: int| 0 <= i < pevs.drop_last().len() implies (#[trigger] pevs.drop_last()[i]).phys
            < layout.len() && !(forall|k: Kc| !layout[pevs.drop_last()[i].phys as int].has(k)) by {
            assert(pevs.drop_last()[i] == pevs[i]);
        }
        lemma_run_events_min(layout, pevs.drop_last());
        let pev = pevs.last();
        let kcset = layout[pev.phys as int];
        assert(pevs[pevs.len() - 1] == pev);
        kcset.lemma_mods_first();
        let k = choose|k: Kc| kcset.has(k);
        assert(kcset.mods_first().contains(k));
    }
}

/// How many of the first `n` physical keys are held (by `phys`) and hold key code `k`.
pub open spec fn held_count(phys: spec_fn(usize) -> int, layout: Seq<KcSet>, k: Kc, n: int) -> int
    decreases n,
{
    if n <= 0 {
        0
    } else {
        held_count(phys, layout, k, n - 1) + if layout[n - 1].has(k) {
            phys((n - 1) as usize)
        } else {
            0
        }
    }
}

/// Moving physical key `pev.phys` moves the count of key code `k` held, if the key holds it.
proof fn lemma_held_moved(phys: spec_fn(usize) -> int, layout: Seq<KcSet>, k: Kc, n: int, pev: PhysEv)
    requires
        n <= layout.len(),
        layout.len() <= usize::MAX + 1,
    ensures
        held_count(moved_phys(phys, pev), layout, k, n) == held_count(phys, layout, k, n) + if pev.phys < n
            && layout[pev.phys as int].has(k) {
            spec_press_to_count(pev.press)
        } else {
            0
        },
    decreases n,
{
    if n > 0 {
        lemma_held_moved(phys, layout, k, n - 1, pev);
        assert(((n - 1) as usize) as int == n - 1);
    }
}

/// With each physical key held at most once, at most `n` of the first `n` hold `k`.
proof fn lemma_held_bound(phys: spec_fn(usize) -> int, layout: Seq<KcSet>, k: Kc, n: int)
    requires
        forall|q: usize| 0 <= #[trigger] phys(q) <= 1,
    ensures
        0 <= held_count(phys, layout, k, n),
        held_count(phys, layout, k, n) <= if n < 0 { 0 } else { n },
    decreases n,
{
    if n > 0 {
        lemma_held_bound(phys, layout, k, n - 1);
        assert(0 <= phys((n - 1) as usize) <= 1);
    }
}

/// Nothing is held at the start.
proof fn lemma_held_start(layout: Seq<KcSet>, k: Kc, n: int)
    ensures
        held_count(start_state().0, layout, k, n) == 0,
    decreases n,
{
    if n > 0 {
        lemma_held_start(layout, k, n - 1);
    }
}

/// Along an accepted run, physical keys stay held at most once, and each key code is counted
/// once for each held physical key that holds it.
proof fn lemma_run_bounds(
    phys: spec_fn(usize) -> int,
    keys: spec_fn(Kc) -> int,
    layout: Seq<KcSet>,
    pevs: Seq<PhysEv>,
    cnst: Constants,
)
    requires
        run_accepted(phys, keys, layout, pevs, cnst),
        layout.len() <= usize::MAX,
        forall|q: usize| 0 <= #[trigger] phys(q) <= 1,
        forall|k: Kc| #[trigger] keys(k) == held_count(phys, layout, k, layout.len() as int),
    ensures
        forall|q: usize| 0 <= #[trigger] run_counts(phys, keys, layout, pevs).0(q) <= 1,
        forall|k: Kc|
            #[trigger] run_counts(phys, keys, layout, pevs).1(k) == held_count(
                run_counts(phys, keys, layout, pevs).0,
                layout,
                k,
                layout.len() as int,
            ),
    decreases pevs.len(),
{
    if pevs.len() > 0 {
        lemma_run_bounds(phys, keys, layout, pevs.drop_last(), cnst);
        let c = run_counts(phys, keys, layout, pevs.drop_last());
        let pev = pevs.last();
        assert(pev_accepted(c.0, c.1, layout, pev, cnst));
        assert forall|q: usize| 0 <= #[trigger] run_counts(phys, keys, layout, pevs).0(q) <= 1 by {
            assert(run_counts(phys, keys, layout, pevs).0(q) == moved_phys(c.0, pev)(q));
        }
        assert forall|k: Kc|
            #[trigger] run_counts(phys, keys, layout, pevs).1(k) == held_count(
                run_counts(phys, keys, layout, pevs).0,
                layout,
                k,
                layout.len() as int,
            ) by {
            assert(run_counts(phys, keys, layout, pevs).1(k) == moved_keys(c.1, layout[pev.phys as int], pev.press)(k));
            assert(run_counts(phys, keys, layout, pevs).0 == moved_phys(c.0, pev));
            lemma_held_moved(c.0, layout, k, layout.len() as int, pev);
        }
    }
}

/// The cost of a run on keys costing at most `maxc` each.
proof fn lemma_pevs_cost_bound(costs: Seq<u64>, pevs: Seq<PhysEv>, maxc: int)
    requires
        0 <= maxc,
        forall|i: int|
            0 <= i < pevs.len() ==> (#[trigger] pevs[i]).phys < costs.len() && costs[pevs[i].phys as int]
                <= maxc,
    ensures
        0 <= pevs_cost(costs, pevs) <= pevs.len() * maxc,
    decreases pevs.len(),
{
    if pevs.len() > 0 {
        assert forall|i: int| 0 <= i < pevs.drop_last().len() implies (#[trigger] pevs.drop_last()[i]).phys
            < costs.len() && costs[pevs.drop_last()[i].phys as int] <= maxc by {
            assert(pevs.drop_last()[i] == pevs[i]);
        }
        lemma_pevs_cost_bound(costs, pevs.drop_last(), maxc);
        assert(pevs[pevs.len() - 1] == pevs.last());
        let n = pevs.len() as int;
        assert((n - 1) * maxc + maxc == n * maxc) by (nonlinear_arith);
    }
}

/// A state of the search for the cheapest way to type a corpus: the keyboard state, how
/// many key events of the corpus have been typed, and at what cost.
#[derive(Debug)]
pub struct Node<'a> {
    pub qmk: QmkModel<'a>,
    pub idx: usize,
    pub cost: u64,
}

impl<'a> Clone for Node<'a> {
    fn clone(&self) -> (r: Self)
        ensures
            r.qmk.layout() == self.qmk.layout(),
            r.qmk.phys_counts().entries() == self.qmk.phys_counts().entries(),
            r.qmk.key_counts().entries() == self.qmk.key_counts().entries(),
            r.qmk.wf() == self.qmk.wf(),
            r.idx == self.idx,
            r.cost == self.cost,
    {
        Node { qmk: self.qmk.clone(), idx: self.idx, cost: self.cost }
    }
}

impl<'a> Node<'a> {
    /// The start of the search on `layout`: nothing held, nothing typed, nothing spent.
    pub fn new(layout: &'a Layout) -> (r: Self)
        ensures
            r.qmk.layout() == layout.keys@,
            r.qmk.phys_counts().entries() == Seq::<(usize, i32)>::empty(),
            r.qmk.key_counts().entries() == Seq::<(Kc, i32)>::empty(),
            r.qmk.wf(),
            r.idx == 0,
            r.cost == 0,
    {
        Self { qmk: QmkModel::new(layout), idx: 0, cost: 0 }
    }
}

/// The outcome of the search: how many key events of the corpus could be typed, and the
/// cost of typing them.
#[derive(Debug, Clone, Copy, PartialEq, Eq)]
pub struct PathResult {
    pub kevs_found: usize,
    pub cost: u64,
}

/// Nodes `a` and `b` stand for the same state: the same position in the corpus and the
/// same counts, entry for entry.
pub open spec fn same_node(a: Node, b: Node) -> bool {
    &&& a.idx == b.idx
    &&& a.qmk.phys_counts().entries() == b.qmk.phys_counts().entries()
    &&& a.qmk.key_counts().entries() == b.qmk.key_counts().entries()
}

/// The first of `nodes` that stands for the same state as `n`.
fn find_node<'a>(nodes: &Vec<Node<'a>>, n: &Node<'a>) -> (r: Option<usize>)
    ensures
        r matches Some(i) ==> i < nodes.len() && same_node(nodes@[i as int], *n),
        r is None ==> forall|i: int| 0 <= i < nodes.len() ==> !same_node(#[trigger] nodes@[i], *n),
{
    let mut i: usize = 0;
    while i < nodes.len()
        invariant
            i <= nodes.len(),
            forall|j: int| 0 <= j < i ==> !same_node(#[trigger] nodes@[j], *n),
        decreases nodes.len() - i,
    {
        if nodes[i].idx == n.idx && nodes[i].qmk.same_counts(&n.qmk) {
            return Some(i);
        }
        i = i + 1;
    }
    None
}

proof fn lemma_same_node_state(a: Node, b: Node)
    requires
        same_node(a, b),
    ensures
        node_state(a) == node_state(b),
{
    assert(phys_of(a.qmk) =~= phys_of(b.qmk));
    assert(keys_of(a.qmk) =~= keys_of(b.qmk));
}

proof fn lemma_node_ok_same(
    layout: Seq<KcSet>,
    kevs: Seq<KeyEv>,
    cnst: Constants,
    costs: Seq<u64>,
    maxc: int,
    a: Node,
    b: Node,
)
    requires
        node_ok(layout, kevs, cnst, costs, maxc, a),
        same_node(a, b),
        b.qmk.layout() == a.qmk.layout(),
        b.cost == a.cost,
    ensures
        node_ok(layout, kevs, cnst, costs, maxc, b),
{
    lemma_same_node_state(a, b);
    assert forall|q: usize| 0 <= #[trigger] b.qmk.phys_counts().count(q) <= 1 by {
        assert(a.qmk.phys_counts().count(q) == b.qmk.phys_counts().count(q));
    }
    assert(phys_of(b.qmk) == phys_of(a.qmk));
    assert forall|k: Kc| #[trigger] b.qmk.key_counts().count(k) == held_count(phys_of(b.qmk), layout, k, layout.len() as int) by {
        assert(a.qmk.key_counts().count(k) == b.qmk.key_counts().count(k));
    }
    let ps = choose|ps: Seq<int>|
        #[trigger] walk_valid(layout, kevs, cnst, ps) && walk_state(layout, kevs, ps) == node_state(a)
            && walk_cost(layout, kevs, costs, ps) == a.cost;
    assert(walk_valid(layout, kevs, cnst, ps));
}

/// A step from a node the search keeps leads to a node the search can keep.
proof fn lemma_child_ok(
    layout: Seq<KcSet>,
    kevs: Seq<KeyEv>,
    cnst: Constants,
    costs: Seq<u64>,
    maxc: int,
    n: Node,
    child: Node,
    p: int,
)
    requires
        node_ok(layout, kevs, cnst, costs, maxc, n),
        n.idx < kevs.len(),
        step_valid(layout, kevs, cnst, node_state(n), p),
        node_state(child) == step_state(layout, kevs, node_state(n), p),
        child.qmk.wf(),
        child.qmk.layout() == layout,
        child.cost == n.cost + pevs_cost(costs, step_pevs(layout, kevs, node_state(n), p)),
        layout.len() <= costs.len(),
        forall|q: int| 0 <= q < layout.len() ==> costs[q] <= maxc,
        0 <= maxc,
        layout.len() <= usize::MAX,
    ensures
        node_ok(layout, kevs, cnst, costs, maxc, child),
{
    let s = node_state(n);
    let e = step_pevs(layout, kevs, s, p);
    lemma_edge_pevs(layout, kevs[s.2], p);
    lemma_run_events_min(layout, e);
    lemma_run_events_len(layout, e);
    assert forall|k: Kc| #[trigger] s.1(k) == held_count(s.0, layout, k, layout.len() as int) by {
        assert(s.1(k) == n.qmk.key_counts().count(k));
    }
    lemma_run_bounds(s.0, s.1, layout, e, cnst);
    assert forall|i: int| 0 <= i < e.len() implies (#[trigger] e[i]).phys < costs.len() && costs[e[i].phys as int]
        <= maxc by {
        assert(e[i].phys < layout.len());
    }
    lemma_pevs_cost_bound(costs, e, maxc);
    let ni = n.idx as int;
    let ne = run_events(layout, e).len() as int;
    let ci = child.idx as int;
    assert(ci == ni + ne);
    assert(e.len() <= ne);
    assert(ne <= 6 * NUM_KC) by (nonlinear_arith)
        requires
            ne <= 2 * NUM_KC * e.len(),
            e.len() <= 3,
    ;
    assert forall|q: usize| 0 <= #[trigger] child.qmk.phys_counts().count(q) <= 1 by {
        assert(phys_of(child.qmk)(q) == child.qmk.phys_counts().count(q));
        assert(phys_of(n.qmk)(q) == n.qmk.phys_counts().count(q));
    }
    assert forall|k: Kc| #[trigger] child.qmk.key_counts().count(k) == held_count(
        phys_of(child.qmk),
        layout,
        k,
        layout.len() as int,
    ) by {
        assert(keys_of(child.qmk)(k) == child.qmk.key_counts().count(k));
    }
    let pc = pevs_cost(costs, e);
    assert(n.cost + pc <= ci * maxc) by (nonlinear_arith)
        requires
            n.cost <= ni * maxc,
            pc <= e.len() * maxc,
            e.len() <= ne,
            ci == ni + ne,
            0 <= maxc,
    ;
    let ps = choose|ps: Seq<int>|
        #[trigger] walk_valid(layout, kevs, cnst, ps) && walk_state(layout, kevs, ps) == node_state(n)
            && walk_cost(layout, kevs, costs, ps) == n.cost;
    lemma_walk_push(layout, kevs, cnst, costs, ps, p);
    assert(walk_valid(layout, kevs, cnst, ps.push(p)));
}

proof fn lemma_pending_push(pend: Seq<u64>, x: u64, w: spec_fn(u64) -> nat)
    requires
        pend.no_duplicates(),
        !pend.contains(x),
    ensures
        pend.push(x).no_duplicates(),
        forall|y: u64| #[trigger] pend.push(x).contains(y) <==> (pend.contains(y) || y == x),
        wsum(pend.push(x), w) == wsum(pend, w) + w(x),
{
    lemma_push_contains(pend, x);
    assert(pend.push(x).drop_last() =~= pend);
    assert forall|i: int, j: int| 0 <= i < j < pend.push(x).len() implies pend.push(x)[i] != pend.push(x)[j] by {
        if j == pend.len() {
            assert(pend.contains(pend[i]));
        }
    }
}

/// The weight of a state one step on is at most `bw`, the weight one level down.
proof fn lemma_child_weight(np: nat, len: int, nidx: int, cidx: int)
    requires
        nidx < len,
        nidx + 1 <= cidx,
    ensures
        weight_of(np, len, cidx) <= pw(np + 1, (len - nidx - 1) as nat),
        1 <= pw(np + 1, (len - nidx - 1) as nat),
{
    lemma_pw_mono(np + 1, 0, (len - nidx - 1) as nat);
    if cidx < len {
        lemma_pw_mono(np + 1, (len - cidx) as nat, (len - nidx - 1) as nat);
    }
}

/// Everything the search keeps true of a node it has made: the keyboard is well formed on
/// the search's layout, no physical key is held twice, each key code is counted once for
/// each held physical key that holds it, its cost is bounded by what the steps so far can
/// cost, it is not far
/// past the end of the corpus, and some walk reaches its state at its cost.
pub open spec fn node_ok(
    layout: Seq<KcSet>,
    kevs: Seq<KeyEv>,
    cnst: Constants,
    costs: Seq<u64>,
    maxc: int,
    a: Node,
) -> bool {
    &&& a.qmk.wf()
    &&& a.qmk.layout() == layout
    &&& forall|q: usize| 0 <= #[trigger] a.qmk.phys_counts().count(q) <= 1
    &&& forall|k: Kc| #[trigger] a.qmk.key_counts().count(k) == held_count(phys_of(a.qmk), layout, k, layout.len() as int)
    &&& a.cost <= a.idx * maxc
    &&& a.idx <= kevs.len() + 6 * NUM_KC
    &&& exists|ps: Seq<int>|
        #[trigger] walk_valid(layout, kevs, cnst, ps) && walk_state(layout, kevs, ps) == node_state(a)
            && walk_cost(layout, kevs, costs, ps) == a.cost
}

/// The priority with which the search queues the state step `p` leads to from state `s`,
/// reached at `cost`: the negated sum of the step's cost and the corpus events left after it
/// (a signed number, so negative past the end of the corpus).
pub open spec fn step_priority(
    layout: Seq<KcSet>,
    kevs: Seq<KeyEv>,
    costs: Seq<u64>,
    s: (spec_fn(usize) -> int, spec_fn(Kc) -> int, int),
    cost: int,
    p: int,
) -> int {
    -(cost + pevs_cost(costs, step_pevs(layout, kevs, s, p)) + kevs.len() - step_state(layout, kevs, s, p).2)
}

/// Some walk of the search reaches state `s` at cost `cost`.
pub open spec fn reached_at(
    layout: Seq<KcSet>,
    kevs: Seq<KeyEv>,
    cnst: Constants,
    costs: Seq<u64>,
    s: (spec_fn(usize) -> int, spec_fn(Kc) -> int, int),
    cost: int,
) -> bool {
    exists|ps: Seq<int>|
        #[trigger] walk_valid(layout, kevs, cnst, ps) && walk_state(layout, kevs, ps) == s
            && walk_cost(layout, kevs, costs, ps) == cost
}

/// Entry `e` of the record of the search came out with the priority of some walk to its
/// state, costing no more than the cost kept with it.
pub open spec fn priority_of_walk(
    layout: Seq<KcSet>,
    kevs: Seq<KeyEv>,
    cnst: Constants,
    costs: Seq<u64>,
    e: ((spec_fn(usize) -> int, spec_fn(Kc) -> int, int), int, int),
) -> bool {
    exists|c: int| c <= e.1 && e.2 == -(c + kevs.len() - e.0.2) && #[trigger] reached_at(layout, kevs, cnst, costs, e.0, c)
}

/// A record of the states the search took out of its queue so far, in order: each entry
/// is the state, the cost kept with it and the priority it came out with.
/// - The start comes out first, at cost and priority zero.
/// - Each state is reached by some walk at the cost kept with it.
/// - Each later one came out with the priority of some walk to it, costing no more than
///   the cost kept with it.
/// - Only the last may have typed the whole corpus.
/// - Each came out with a priority no worse than that of every state a step from an earlier
///   one gave (at the cost kept with that earlier one), unless that state came out in
///   between: the queue gives its best first.
pub open spec fn search_log_prefix(
    layout: Seq<KcSet>,
    kevs: Seq<KeyEv>,
    cnst: Constants,
    costs: Seq<u64>,
    log: Seq<((spec_fn(usize) -> int, spec_fn(Kc) -> int, int), int, int)>,
) -> bool {
    &&& log.len() > 0 ==> log[0] == (start_state(), 0int, 0int)
    &&& forall|j: int| 0 <= j < log.len() ==> reached_at(layout, kevs, cnst, costs, (#[trigger] log[j]).0, log[j].1)
    &&& forall|j: int| 1 <= j < log.len() ==> priority_of_walk(layout, kevs, cnst, costs, #[trigger] log[j])
    &&& forall|j: int| 0 <= j < log.len() - 1 ==> (#[trigger] log[j]).0.2 < kevs.len()
    &&& forall|i: int, j: int, p: int|
        0 <= i < j < log.len() && #[trigger] step_valid(layout, kevs, cnst, log[i].0, p) && (forall|k: int|
            i < k < j ==> (#[trigger] log[k]).0 != step_state(layout, kevs, log[i].0, p)) ==> step_priority(
            layout,
            kevs,
            costs,
            log[i].0,
            log[i].1,
            p,
        ) <= (#[trigger] log[j]).2
}

/// The whole record of the search (see `search_log_prefix`): it is not empty, and it ends
/// with a state that typed the whole corpus, or when every state a step from an entry gave
/// has come out after that entry.
pub open spec fn search_log(
    layout: Seq<KcSet>,
    kevs: Seq<KeyEv>,
    cnst: Constants,
    costs: Seq<u64>,
    log: Seq<((spec_fn(usize) -> int, spec_fn(Kc) -> int, int), int, int)>,
) -> bool {
    &&& log.len() >= 1
    &&& search_log_prefix(layout, kevs, cnst, costs, log)
    &&& log.last().0.2 >= kevs.len() || forall|i: int, p: int|
        0 <= i < log.len() && #[trigger] step_valid(layout, kevs, cnst, log[i].0, p) ==> exists|k: int|
            i < k < log.len() && (#[trigger] log[k]).0 == step_state(layout, kevs, log[i].0, p)
}

/// Each state in the queue is among those made so far, and its priority is that of some
/// walk to it that costs no more than the cost kept with it.
pub open spec fn queue_costs_ok(
    layout: Seq<KcSet>,
    kevs: Seq<KeyEv>,
    cnst: Constants,
    costs: Seq<u64>,
    qm: Map<u64, i64>,
    nodes: Seq<Node>,
    sts: Seq<(spec_fn(usize) -> int, spec_fn(Kc) -> int, int)>,
) -> bool {
    forall|id: u64| #[trigger] qm.contains_key(id) ==> {
        &&& (id as int) < nodes.len()
        &&& (id as int) < sts.len()
        &&& exists|c: int|
            c <= nodes[id as int].cost && qm[id] == -(c + kevs.len() - sts[id as int].2) && #[trigger] reached_at(
                layout,
                kevs,
                cnst,
                costs,
                sts[id as int],
                c,
            )
    }
}

proof fn lemma_push_increase_grew(q0: Map<u64, i64>, q1: Map<u64, i64>, item: u64, priority: i64, r: Option<i64>)
    requires
        !q0.contains_key(item) ==> r is None && q1 == q0.insert(item, priority),
        q0.contains_key(item) && q0[item] < priority ==> r == Some(q0[item]) && q1 == q0.insert(item, priority),
        q0.contains_key(item) && priority <= q0[item] ==> r == Some(priority) && q1 == q0,
    ensures
        queue_grew(q0, q1),
        q1.contains_key(item),
        q1[item] >= priority,
        forall|id: u64| #[trigger] q1.contains_key(id) ==> q0.contains_key(id) || id == item,
        forall|id: u64| id != item && #[trigger] q1.contains_key(id) ==> q1[id] == q0[id],
        r is None ==> !q0.contains_key(item) && q1[item] == priority,
{
}

/// The furthest position among the entries of `log`, and the least cost kept with an entry
/// at that position.
pub open spec fn log_best(
    log: Seq<((spec_fn(usize) -> int, spec_fn(Kc) -> int, int), int, int)>,
    kevs_found: int,
    cost: int,
) -> bool {
    &&& exists|j: int| 0 <= j < log.len() && (#[trigger] log[j]).0.2 == kevs_found && log[j].1 == cost
    &&& forall|j: int| 0 <= j < log.len() ==> (#[trigger] log[j]).0.2 <= kevs_found
    &&& forall|j: int| 0 <= j < log.len() && (#[trigger] log[j]).0.2 == kevs_found ==> cost <= log[j].1
}

/// The queue holds a state `cs` (among the states `sts` made so far) with priority at
/// least `pr`.
pub open spec fn has_queued(
    qm: Map<u64, i64>,
    sts: Seq<(spec_fn(usize) -> int, spec_fn(Kc) -> int, int)>,
    cs: (spec_fn(usize) -> int, spec_fn(Kc) -> int, int),
    pr: int,
) -> bool {
    exists|id: u64|
        #[trigger] qm.contains_key(id) && (id as int) < sts.len() && sts[id as int] == cs && qm[id] >= pr
}

/// Every item of `q0` is still in `q1`, with a priority no lower.
pub open spec fn queue_grew(q0: Map<u64, i64>, q1: Map<u64, i64>) -> bool {
    forall|id: u64| #[trigger] q0.contains_key(id) ==> q1.contains_key(id) && q1[id] >= q0[id]
}

proof fn lemma_has_queued_grew(
    q0: Map<u64, i64>,
    q1: Map<u64, i64>,
    sts0: Seq<(spec_fn(usize) -> int, spec_fn(Kc) -> int, int)>,
    sts1: Seq<(spec_fn(usize) -> int, spec_fn(Kc) -> int, int)>,
    cs: (spec_fn(usize) -> int, spec_fn(Kc) -> int, int),
    pr: int,
)
    requires
        has_queued(q0, sts0, cs, pr),
        queue_grew(q0, q1),
        sts0.len() <= sts1.len(),
        forall|i: int| 0 <= i < sts0.len() ==> sts1[i] == sts0[i],
    ensures
        has_queued(q1, sts1, cs, pr),
{
    let id = choose|id: u64|
        #[trigger] q0.contains_key(id) && (id as int) < sts0.len() && sts0[id as int] == cs && q0[id] >= pr;
    assert(q1.contains_key(id));
}

/// For each of the first `upto` entries of `log`, each state a step from it gives that has
/// not come out of the queue since is in the queue `qm`, with at least the priority the step
/// gave it.
#[verifier::opaque]
spec fn owed(
    layout: Seq<KcSet>,
    kevs: Seq<KeyEv>,
    cnst: Constants,
    costs: Seq<u64>,
    log: Seq<((spec_fn(usize) -> int, spec_fn(Kc) -> int, int), int, int)>,
    upto: int,
    qm: Map<u64, i64>,
    sts: Seq<(spec_fn(usize) -> int, spec_fn(Kc) -> int, int)>,
) -> bool {
    forall|i: int, p: int|
        0 <= i < upto && #[trigger] step_valid(layout, kevs, cnst, log[i].0, p) && (forall|k: int|
            i < k < log.len() ==> (#[trigger] log[k]).0 != step_state(layout, kevs, log[i].0, p)) ==> has_queued(
            qm,
            sts,
            step_state(layout, kevs, log[i].0, p),
            step_priority(layout, kevs, costs, log[i].0, log[i].1, p),
        )
}

/// Each state that one of the first `k` steps `filt` from state `s` (reached at `cost`)
/// gives is in the queue `qm`, with at least the priority the step gave it.
#[verifier::opaque]
spec fn owed_steps(
    layout: Seq<KcSet>,
    kevs: Seq<KeyEv>,
    cnst: Constants,
    costs: Seq<u64>,
    s: (spec_fn(usize) -> int, spec_fn(Kc) -> int, int),
    cost: int,
    filt: Seq<int>,
    k: int,
    qm: Map<u64, i64>,
    sts: Seq<(spec_fn(usize) -> int, spec_fn(Kc) -> int, int)>,
) -> bool {
    forall|k2: int|
        0 <= k2 < k && #[trigger] step_valid(layout, kevs, cnst, s, filt[k2]) ==> has_queued(
            qm,
            sts,
            step_state(layout, kevs, s, filt[k2]),
            step_priority(layout, kevs, costs, s, cost, filt[k2]),
        )
}

proof fn lemma_owed_kept(
    layout: Seq<KcSet>,
    kevs: Seq<KeyEv>,
    cnst: Constants,
    costs: Seq<u64>,
    log: Seq<((spec_fn(usize) -> int, spec_fn(Kc) -> int, int), int, int)>,
    upto: int,
    q0: Map<u64, i64>,
    q1: Map<u64, i64>,
    sts0: Seq<(spec_fn(usize) -> int, spec_fn(Kc) -> int, int)>,
    sts1: Seq<(spec_fn(usize) -> int, spec_fn(Kc) -> int, int)>,
)
    requires
        owed(layout, kevs, cnst, costs, log, upto, q0, sts0),
        queue_grew(q0, q1),
        sts0.len() <= sts1.len(),
        forall|i: int| 0 <= i < sts0.len() ==> sts1[i] == sts0[i],
    ensures
        owed(layout, kevs, cnst, costs, log, upto, q1, sts1),
{
    reveal(owed);
    assert forall|i: int, p: int|
        0 <= i < upto && #[trigger] step_valid(layout, kevs, cnst, log[i].0, p) && (forall|k: int|
            i < k < log.len() ==> (#[trigger] log[k]).0 != step_state(layout, kevs, log[i].0, p)) implies has_queued(
        q1,
        sts1,
        step_state(layout, kevs, log[i].0, p),
        step_priority(layout, kevs, costs, log[i].0, log[i].1, p),
    ) by {
        lemma_has_queued_grew(
            q0,
            q1,
            sts0,
            sts1,
            step_state(layout, kevs, log[i].0, p),
            step_priority(layout, kevs, costs, log[i].0, log[i].1, p),
        );
    }
}

proof fn lemma_owed_steps_next(
    layout: Seq<KcSet>,
    kevs: Seq<KeyEv>,
    cnst: Constants,
    costs: Seq<u64>,
    s: (spec_fn(usize) -> int, spec_fn(Kc) -> int, int),
    cost: int,
    filt: Seq<int>,
    k: int,
    q0: Map<u64, i64>,
    q1: Map<u64, i64>,
    sts0: Seq<(spec_fn(usize) -> int, spec_fn(Kc) -> int, int)>,
    sts1: Seq<(spec_fn(usize) -> int, spec_fn(Kc) -> int, int)>,
)
    requires
        0 <= k,
        owed_steps(layout, kevs, cnst, costs, s, cost, filt, k, q0, sts0),
        queue_grew(q0, q1),
        sts0.len() <= sts1.len(),
        forall|i: int| 0 <= i < sts0.len() ==> sts1[i] == sts0[i],
        step_valid(layout, kevs, cnst, s, filt[k]) ==> has_queued(
            q1,
            sts1,
            step_state(layout, kevs, s, filt[k]),
            step_priority(layout, kevs, costs, s, cost, filt[k]),
        ),
    ensures
        owed_steps(layout, kevs, cnst, costs, s, cost, filt, k + 1, q1, sts1),
{
    reveal(owed_steps);
    assert forall|k2: int|
        0 <= k2 < k + 1 && #[trigger] step_valid(layout, kevs, cnst, s, filt[k2]) implies has_queued(
        q1,
        sts1,
        step_state(layout, kevs, s, filt[k2]),
        step_priority(layout, kevs, costs, s, cost, filt[k2]),
    ) by {
        if k2 < k {
            lemma_has_queued_grew(
                q0,
                q1,
                sts0,
                sts1,
                step_state(layout, kevs, s, filt[k2]),
                step_priority(layout, kevs, costs, s, cost, filt[k2]),
            );
        }
    }
}

/// Once every step from the last entry has been tried, all of the record is owed its due.
proof fn lemma_owed_close(
    layout: Seq<KcSet>,
    kevs: Seq<KeyEv>,
    cnst: Constants,
    costs: Seq<u64>,
    log: Seq<((spec_fn(usize) -> int, spec_fn(Kc) -> int, int), int, int)>,
    filt: Seq<int>,
    qm: Map<u64, i64>,
    sts: Seq<(spec_fn(usize) -> int, spec_fn(Kc) -> int, int)>,
)
    requires
        log.len() >= 1,
        owed(layout, kevs, cnst, costs, log, log.len() - 1, qm, sts),
        owed_steps(layout, kevs, cnst, costs, log.last().0, log.last().1, filt, filt.len() as int, qm, sts),
        forall|p: int|
            #[trigger] step_valid(layout, kevs, cnst, log.last().0, p) ==> exists|k2: int|
                0 <= k2 < filt.len() && filt[k2] == p,
    ensures
        owed(layout, kevs, cnst, costs, log, log.len() as int, qm, sts),
{
    reveal(owed);
    reveal(owed_steps);
    let m = log.len() - 1;
    assert forall|i: int, p: int|
        0 <= i < log.len() && #[trigger] step_valid(layout, kevs, cnst, log[i].0, p) && (forall|k: int|
            i < k < log.len() ==> (#[trigger] log[k]).0 != step_state(layout, kevs, log[i].0, p)) implies has_queued(
        qm,
        sts,
        step_state(layout, kevs, log[i].0, p),
        step_priority(layout, kevs, costs, log[i].0, log[i].1, p),
    ) by {
        if i == m {
            assert(log[i] == log.last());
            let k2 = choose|k2: int| 0 <= k2 < filt.len() && filt[k2] == p;
            assert(step_valid(layout, kevs, cnst, log.last().0, filt[k2]));
        }
    }
}

/// An entry that typed the whole corpus gives no step.
proof fn lemma_owed_finished(
    layout: Seq<KcSet>,
    kevs: Seq<KeyEv>,
    cnst: Constants,
    costs: Seq<u64>,
    log: Seq<((spec_fn(usize) -> int, spec_fn(Kc) -> int, int), int, int)>,
    qm: Map<u64, i64>,
    sts: Seq<(spec_fn(usize) -> int, spec_fn(Kc) -> int, int)>,
)
    requires
        log.len() >= 1,
        owed(layout, kevs, cnst, costs, log, log.len() - 1, qm, sts),
        log.last().0.2 >= kevs.len(),
    ensures
        owed(layout, kevs, cnst, costs, log, log.len() as int, qm, sts),
{
    reveal(owed);
    assert forall|i: int, p: int|
        0 <= i < log.len() && #[trigger] step_valid(layout, kevs, cnst, log[i].0, p) && (forall|k: int|
            i < k < log.len() ==> (#[trigger] log[k]).0 != step_state(layout, kevs, log[i].0, p)) implies has_queued(
        qm,
        sts,
        step_state(layout, kevs, log[i].0, p),
        step_priority(layout, kevs, costs, log[i].0, log[i].1, p),
    ) by {
        if i == log.len() - 1 {
            assert(log[i] == log.last());
        }
    }
}

/// With nothing left in the queue, every state a step from an entry gave has come out after
/// that entry.
proof fn lemma_owed_empty(
    layout: Seq<KcSet>,
    kevs: Seq<KeyEv>,
    cnst: Constants,
    costs: Seq<u64>,
    log: Seq<((spec_fn(usize) -> int, spec_fn(Kc) -> int, int), int, int)>,
    qm: Map<u64, i64>,
    sts: Seq<(spec_fn(usize) -> int, spec_fn(Kc) -> int, int)>,
)
    requires
        owed(layout, kevs, cnst, costs, log, log.len() as int, qm, sts),
        qm.dom() == Set::<u64>::empty(),
    ensures
        forall|i: int, p: int|
            0 <= i < log.len() && #[trigger] step_valid(layout, kevs, cnst, log[i].0, p) ==> exists|k: int|
                i < k < log.len() && (#[trigger] log[k]).0 == step_state(layout, kevs, log[i].0, p),
{
    reveal(owed);
    assert forall|i: int, p: int|
        0 <= i < log.len() && #[trigger] step_valid(layout, kevs, cnst, log[i].0, p) implies exists|k: int|
        i < k < log.len() && (#[trigger] log[k]).0 == step_state(layout, kevs, log[i].0, p) by {
        let cs = step_state(layout, kevs, log[i].0, p);
        if !(exists|k: int| i < k < log.len() && (#[trigger] log[k]).0 == cs) {
            let pr = step_priority(layout, kevs, costs, log[i].0, log[i].1, p);
            assert(has_queued(qm, sts, cs, pr));
            let w = choose|w: u64| #[trigger] qm.contains_key(w) && (w as int) < sts.len() && sts[w as int] == cs && qm[w] >= pr;
            assert(qm.dom().contains(w));
        }
    }
}

/// The record of the search extended by one more state out of the queue.
proof fn lemma_log_prefix_push(
    layout: Seq<KcSet>,
    kevs: Seq<KeyEv>,
    cnst: Constants,
    costs: Seq<u64>,
    log: Seq<((spec_fn(usize) -> int, spec_fn(Kc) -> int, int), int, int)>,
    x: ((spec_fn(usize) -> int, spec_fn(Kc) -> int, int), int, int),
)
    requires
        search_log_prefix(layout, kevs, cnst, costs, log),
        log.len() > 0 ==> log.last().0.2 < kevs.len(),
        log.len() == 0 ==> x == (start_state(), 0int, 0int),
        reached_at(layout, kevs, cnst, costs, x.0, x.1),
        log.len() > 0 ==> priority_of_walk(layout, kevs, cnst, costs, x),
        forall|i: int, p: int|
            0 <= i < log.len() && #[trigger] step_valid(layout, kevs, cnst, log[i].0, p) && (forall|k: int|
                i < k < log.len() ==> (#[trigger] log[k]).0 != step_state(layout, kevs, log[i].0, p)) ==> step_priority(
                layout,
                kevs,
                costs,
                log[i].0,
                log[i].1,
                p,
            ) <= x.2,
    ensures
        search_log_prefix(layout, kevs, cnst, costs, log.push(x)),
{
    let l2 = log.push(x);
    let m = log.len() as int;
    if m > 0 {
        assert(l2[0] == log[0]);
    }
    assert forall|j: int| 0 <= j < l2.len() implies reached_at(layout, kevs, cnst, costs, (#[trigger] l2[j]).0, l2[j].1) by {
        if j < m {
            assert(l2[j] == log[j]);
        }
    }
    assert forall|j: int| 1 <= j < l2.len() implies priority_of_walk(layout, kevs, cnst, costs, #[trigger] l2[j]) by {
        if j < m {
            assert(l2[j] == log[j]);
        } else {
            assert(l2[j] == x);
        }
    }
    assert forall|j: int| 0 <= j < l2.len() - 1 implies (#[trigger] l2[j]).0.2 < kevs.len() by {
        assert(l2[j] == log[j]);
        if j < m - 1 {
            assert(log[j].0.2 < kevs.len());
        }
    }
    assert forall|i: int, j: int, p: int|
        0 <= i < j < l2.len() && #[trigger] step_valid(layout, kevs, cnst, l2[i].0, p) && (forall|k: int|
            i < k < j ==> (#[trigger] l2[k]).0 != step_state(layout, kevs, l2[i].0, p)) implies step_priority(
        layout,
        kevs,
        costs,
        l2[i].0,
        l2[i].1,
        p,
    ) <= (#[trigger] l2[j]).2 by {
        assert(l2[i] == log[i]);
        if j < m {
            assert(l2[j] == log[j]);
            assert forall|k: int| i < k < j implies (#[trigger] log[k]).0 != step_state(layout, kevs, log[i].0, p) by {
                assert(l2[k] == log[k]);
            }
        } else {
            assert forall|k: int| i < k < log.len() implies (#[trigger] log[k]).0 != step_state(layout, kevs, log[i].0, p) by {
                assert(l2[k] == log[k]);
            }
        }
    }
}

/// Taking a state out of the queue extends the record of the search.
#[verifier::rlimit(100)]
#[verifier::spinoff_prover]
proof fn lemma_log_pop(
    layout: Seq<KcSet>,
    kevs: Seq<KeyEv>,
    cnst: Constants,
    costs: Seq<u64>,
    log: Seq<((spec_fn(usize) -> int, spec_fn(Kc) -> int, int), int, int)>,
    qb: Map<u64, i64>,
    qa: Map<u64, i64>,
    nodes: Seq<Node>,
    sts: Seq<(spec_fn(usize) -> int, spec_fn(Kc) -> int, int)>,
    id: u64,
    cost: int,
    best0: (int, int),
    best1: (int, int),
)
    requires
        search_log_prefix(layout, kevs, cnst, costs, log),
        log.len() > 0 ==> log.last().0.2 < kevs.len(),
        log.len() > 0 ==> log_best(log, best0.0, best0.1),
        log.len() == 0 ==> qb.dom() =~= set![0u64] && qb[0u64] == 0 && sts[0] == start_state()
            && nodes[0].cost == 0 && best0 == (0int, 0int),
        owed(layout, kevs, cnst, costs, log, log.len() as int, qb, sts),
        log.len() == 0 || queue_costs_ok(layout, kevs, cnst, costs, qb, nodes, sts),
        qb.contains_key(id),
        forall|j: u64| #[trigger] qb.contains_key(j) ==> qb[j] <= qb[id],
        qa == qb.remove(id),
        (id as int) < sts.len(),
        nodes.len() == sts.len(),
        reached_at(layout, kevs, cnst, costs, sts[id as int], cost),
        cost == nodes[id as int].cost,
        best1 == (if sts[id as int].2 > best0.0 || (sts[id as int].2 == best0.0 && cost < best0.1) {
            (sts[id as int].2, cost)
        } else {
            best0
        }),
    ensures
        search_log_prefix(layout, kevs, cnst, costs, log.push((sts[id as int], cost, qb[id] as int))),
        log_best(log.push((sts[id as int], cost, qb[id] as int)), best1.0, best1.1),
        owed(layout, kevs, cnst, costs, log.push((sts[id as int], cost, qb[id] as int)), log.len() as int, qa, sts),
        queue_costs_ok(layout, kevs, cnst, costs, qa, nodes, sts),
{
    reveal(owed);
    let x = (sts[id as int], cost, qb[id] as int);
    let l2 = log.push(x);
    let m = log.len() as int;
    if m == 0 {
        assert(qb.dom().contains(id));
        assert(id == 0u64);
        assert(qa.dom() =~= Set::<u64>::empty());
    } else {
        let c = choose|c: int|
            c <= nodes[id as int].cost && qb[id] == -(c + kevs.len() - sts[id as int].2) && #[trigger] reached_at(
                layout,
                kevs,
                cnst,
                costs,
                sts[id as int],
                c,
            );
        assert(c <= x.1 && x.2 == -(c + kevs.len() - x.0.2) && reached_at(layout, kevs, cnst, costs, x.0, c));
    }
    assert forall|i: int, p: int|
        0 <= i < log.len() && #[trigger] step_valid(layout, kevs, cnst, log[i].0, p) && (forall|k: int|
            i < k < log.len() ==> (#[trigger] log[k]).0 != step_state(layout, kevs, log[i].0, p)) implies step_priority(
        layout,
        kevs,
        costs,
        log[i].0,
        log[i].1,
        p,
    ) <= x.2 by {
        let cs = step_state(layout, kevs, log[i].0, p);
        let pr = step_priority(layout, kevs, costs, log[i].0, log[i].1, p);
        assert(has_queued(qb, sts, cs, pr));
        let w = choose|w: u64| #[trigger] qb.contains_key(w) && (w as int) < sts.len() && sts[w as int] == cs && qb[w] >= pr;
        assert(qb[w] <= qb[id]);
    }
    lemma_log_prefix_push(layout, kevs, cnst, costs, log, x);
    // The best entry.
    if m == 0 {
        assert(l2[0].0.2 == 0);
        assert(log_best(l2, best1.0, best1.1)) by {
            assert(l2[0].0.2 == best1.0 && l2[0].1 == best1.1);
        }
    } else {
        let jb = choose|jb: int| 0 <= jb < log.len() && (#[trigger] log[jb]).0.2 == best0.0 && log[jb].1 == best0.1;
        assert forall|j: int| 0 <= j < l2.len() implies (#[trigger] l2[j]).0.2 <= best1.0 by {
            if j < m {
                assert(l2[j] == log[j]);
                assert(log[j].0.2 <= best0.0);
            }
        }
        assert forall|j: int| 0 <= j < l2.len() && (#[trigger] l2[j]).0.2 == best1.0 implies best1.1 <= l2[j].1 by {
            if j < m {
                assert(l2[j] == log[j]);
                assert(log[j].0.2 <= best0.0);
                if log[j].0.2 == best0.0 {
                    assert(best0.1 <= log[j].1);
                }
            }
        }
        if best1 == best0 {
            assert(l2[jb] == log[jb]);
        } else {
            assert(l2[m].0.2 == best1.0 && l2[m].1 == best1.1);
        }
    }
    // What is still owed to the queue.
    assert forall|i: int, p: int|
        0 <= i < log.len() && #[trigger] step_valid(layout, kevs, cnst, l2[i].0, p) && (forall|k: int|
            i < k < l2.len() ==> (#[trigger] l2[k]).0 != step_state(layout, kevs, l2[i].0, p)) implies has_queued(
        qa,
        sts,
        step_state(layout, kevs, l2[i].0, p),
        step_priority(layout, kevs, costs, l2[i].0, l2[i].1, p),
    ) by {
        assert(l2[i] == log[i]);
        let cs = step_state(layout, kevs, log[i].0, p);
        let pr = step_priority(layout, kevs, costs, log[i].0, log[i].1, p);
        assert forall|k: int| i < k < log.len() implies (#[trigger] log[k]).0 != cs by {
            assert(l2[k] == log[k]);
        }
        assert(l2[m].0 != cs);
        let w = choose|w: u64| #[trigger] qb.contains_key(w) && (w as int) < sts.len() && sts[w as int] == cs && qb[w] >= pr;
        assert(w != id);
        assert(qa.contains_key(w));
    }
    assert forall|w: u64| #[trigger] qa.contains_key(w) implies {
        &&& (w as int) < nodes.len()
        &&& (w as int) < sts.len()
        &&& exists|c: int|
            c <= nodes[w as int].cost && qa[w] == -(c + kevs.len() - sts[w as int].2) && #[trigger] reached_at(
                layout,
                kevs,
                cnst,
                costs,
                sts[w as int],
                c,
            )
    } by {
        assert(qb.contains_key(w));
        if m == 0 {
            assert(qb.dom().contains(w));
            assert(w == id);
        }
    }
}

/// Queuing the state `cs` a step gave, reached at `child_cost`, keeps what the queue's
/// priorities say of their states, and the queue now holds `cs` with at least the step's
/// priority.
proof fn lemma_costs_after_push(
    layout: Seq<KcSet>,
    kevs: Seq<KeyEv>,
    cnst: Constants,
    costs: Seq<u64>,
    q0: Map<u64, i64>,
    q1: Map<u64, i64>,
    nodes0: Seq<Node>,
    nodes1: Seq<Node>,
    sts0: Seq<(spec_fn(usize) -> int, spec_fn(Kc) -> int, int)>,
    sts1: Seq<(spec_fn(usize) -> int, spec_fn(Kc) -> int, int)>,
    item: u64,
    priority: i64,
    r: Option<i64>,
    child_cost: int,
    cs: (spec_fn(usize) -> int, spec_fn(Kc) -> int, int),
)
    requires
        queue_costs_ok(layout, kevs, cnst, costs, q0, nodes0, sts0),
        !q0.contains_key(item) ==> r is None && q1 == q0.insert(item, priority),
        q0.contains_key(item) && q0[item] < priority ==> r == Some(q0[item]) && q1 == q0.insert(item, priority),
        q0.contains_key(item) && priority <= q0[item] ==> r == Some(priority) && q1 == q0,
        nodes0.len() <= nodes1.len(),
        nodes1.len() == sts1.len(),
        sts0.len() <= sts1.len(),
        forall|i: int| 0 <= i < sts0.len() ==> sts1[i] == sts0[i],
        forall|i: int| 0 <= i < nodes0.len() && i != item ==> (#[trigger] nodes1[i]).cost == nodes0[i].cost,
        (item as int) < sts1.len(),
        sts1[item as int] == cs,
        priority == -(child_cost + kevs.len() - cs.2),
        reached_at(layout, kevs, cnst, costs, cs, child_cost),
        r is None ==> nodes1[item as int].cost == child_cost,
        r is Some ==> (item as int) < nodes0.len() && nodes1[item as int].cost == nodes0[item as int].cost,
    ensures
        queue_costs_ok(layout, kevs, cnst, costs, q1, nodes1, sts1),
        queue_grew(q0, q1),
        has_queued(q1, sts1, cs, priority as int),
{
    lemma_push_increase_grew(q0, q1, item, priority, r);
    assert(q1.contains_key(item));
    assert forall|w: u64| #[trigger] q1.contains_key(w) implies {
        &&& (w as int) < nodes1.len()
        &&& (w as int) < sts1.len()
        &&& exists|c: int|
            c <= nodes1[w as int].cost && q1[w] == -(c + kevs.len() - sts1[w as int].2) && #[trigger] reached_at(
                layout,
                kevs,
                cnst,
                costs,
                sts1[w as int],
                c,
            )
    } by {
        if w == item {
            if r is None {
                assert(q1[w] == priority);
                assert(reached_at(layout, kevs, cnst, costs, sts1[w as int], child_cost));
            } else if q0[item] < priority {
                let c = choose|c: int|
                    c <= nodes0[w as int].cost && q0[w] == -(c + kevs.len() - sts0[w as int].2) && #[trigger] reached_at(
                        layout,
                        kevs,
                        cnst,
                        costs,
                        sts0[w as int],
                        c,
                    );
                assert(sts0[w as int] == cs);
                assert(child_cost < c);
                assert(reached_at(layout, kevs, cnst, costs, sts1[w as int], child_cost));
            } else {
                let c = choose|c: int|
                    c <= nodes0[w as int].cost && q0[w] == -(c + kevs.len() - sts0[w as int].2) && #[trigger] reached_at(
                        layout,
                        kevs,
                        cnst,
                        costs,
                        sts0[w as int],
                        c,
                    );
                assert(reached_at(layout, kevs, cnst, costs, sts1[w as int], c));
            }
        } else {
            assert(q0.contains_key(w));
            let c = choose|c: int|
                c <= nodes0[w as int].cost && q0[w] == -(c + kevs.len() - sts0[w as int].2) && #[trigger] reached_at(
                    layout,
                    kevs,
                    cnst,
                    costs,
                    sts0[w as int],
                    c,
                );
            assert(nodes1[w as int].cost == nodes0[w as int].cost);
            assert(reached_at(layout, kevs, cnst, costs, sts1[w as int], c));
        }
    }
}

/// A state a walk reaches is reached at the walk's cost.
proof fn lemma_node_reached(
    layout: Seq<KcSet>,
    kevs: Seq<KeyEv>,
    cnst: Constants,
    costs: Seq<u64>,
    maxc: int,
    a: Node,
)
    requires
        node_ok(layout, kevs, cnst, costs, maxc, a),
    ensures
        reached_at(layout, kevs, cnst, costs, node_state(a), a.cost as int),
{
    let ps = choose|ps: Seq<int>|
        #[trigger] walk_valid(layout, kevs, cnst, ps) && walk_state(layout, kevs, ps) == node_state(a)
            && walk_cost(layout, kevs, costs, ps) == a.cost;
    assert(walk_valid(layout, kevs, cnst, ps));
}

/// The physical layout and the cost of pressing each physical key.
#[derive(Debug, Clone, Default, PartialEq)]
pub struct LayoutCfg {
    pub layout: String,
    pub cost: Vec<u64>,
}

impl LayoutCfg {
    /// The number of physical keys.
    pub fn num_physical(&self) -> (r: usize)
        ensures
            r == self.cost.len(),
    {
        self.cost.len()
    }
}

/// Searches for the cheapest way to type the key events `kevs` on layout `l`.
#[derive(Debug, Clone, PartialEq)]
pub struct PathFinder<'a> {
    layout_cfg: &'a LayoutCfg,
    kevs: &'a [KeyEv],
    cnst: &'a Constants,
    l: &'a Layout,
}

impl<'a> PathFinder<'a> {
    /// The key codes of each physical key.
    pub closed spec fn layout(self) -> Seq<KcSet> {
        self.l.keys@
    }

    /// The key events to type.
    pub closed spec fn corpus(self) -> Seq<KeyEv> {
        self.kevs@
    }

    /// The cost of pressing each physical key.
    pub closed spec fn costs(self) -> Seq<u64> {
        self.layout_cfg.cost@
    }

    /// The limits of the keyboard model.
    pub closed spec fn constants(self) -> Constants {
        *self.cnst
    }

    pub fn new(layout_cfg: &'a LayoutCfg, kevs: &'a [KeyEv], cnst: &'a Constants, l: &'a Layout) -> (r: Self)
        ensures
            r.layout() == l.keys@,
            r.corpus() == kevs@,
            r.costs() == layout_cfg.cost@,
            r.constants() == *cnst,
    {
        Self { layout_cfg, kevs, cnst, l }
    }

    /// The total cost of pressing the physical keys of `pev`.
    fn phys_cost(&self, pev: &[PhysEv]) -> (r: u64)
        requires
            forall|i: int| 0 <= i < pev.len() ==> (#[trigger] pev[i]).phys < self.costs().len(),
            pevs_cost(self.costs(), pev@) <= u64::MAX,
        ensures
            r == pevs_cost(self.costs(), pev@),
    {
        let mut c: u64 = 0;
        let mut i: usize = 0;
        while i < pev.len()
            invariant
                i <= pev.len(),
                forall|i: int| 0 <= i < pev.len() ==> (#[trigger] pev[i]).phys < self.costs().len(),
                pevs_cost(self.costs(), pev@) <= u64::MAX,
                c == pevs_cost(self.costs(), pev@.take(i as int)),
            decreases pev.len() - i,
        {
            proof {
                assert(pev@.take(i as int + 1).drop_last() =~= pev@.take(i as int));
                lemma_pevs_cost_prefix(self.costs(), pev@, i as int + 1);
            }
            c = c + self.layout_cfg.cost[pev[i].phys];
            i = i + 1;
        }
        proof {
            assert(pev@.take(pev.len() as int) =~= pev@);
        }
        c
    }

    /// A best-first search for the cheapest way to type the corpus. From each state it tries
    /// the edges that `key_ev_edges` gives for the next corpus event, and queues the
    /// states that type on correctly, most promising first: lowest cost plus number of corpus
    /// events left (counted as a signed number, so that a state past the end of the corpus
    /// has a negative remainder). A state already queued keeps its cost and gets the better
    /// priority. The search stops when a state that has typed the whole corpus comes out of
    /// the queue, or when the queue is empty; it gives the furthest position reached and,
    /// among the states that reached it, the lowest cost of those that came out of the queue.
    ///
    /// The contract says so over a record of the states taken out of the queue
    /// (`search_log`): the result is the best entry of such a record (`log_best`). Which of
    /// several states of equal priority comes out first is the queue's choice, so the record
    /// is not fixed by the inputs; the cost is the least kept with a state that came out,
    /// which need not be the least of all walks, since a queued state keeps its first cost.
    /// Key-code counts are `i32`, and a count is at most the number of physical keys, hence
    /// the bound on the layout; positions past the end of the corpus must fit a `usize`.
    #[verifier::rlimit(80)]
    #[verifier::spinoff_prover]
    pub fn path(&self) -> (r: PathResult)
        requires
            self.layout().len() <= self.costs().len(),
            self.layout().len() < i32::MAX - 3,
            self.corpus().len() + 6 * NUM_KC <= usize::MAX,
            (self.corpus().len() + 6 * NUM_KC + 1) * (max_cost(self.costs(), self.layout().len() as int) + 1)
                <= i64::MAX,
        ensures
            exists|ps: Seq<int>|
                #[trigger] walk_valid(self.layout(), self.corpus(), self.constants(), ps)
                    && walk_state(self.layout(), self.corpus(), ps).2 == r.kevs_found
                    && walk_cost(self.layout(), self.corpus(), self.costs(), ps) == r.cost,
            r.kevs_found < self.corpus().len() ==> forall|ps: Seq<int>|
                #[trigger] walk_valid(self.layout(), self.corpus(), self.constants(), ps)
                    ==> walk_state(self.layout(), self.corpus(), ps).2 <= r.kevs_found,
            exists|log: Seq<((spec_fn(usize) -> int, spec_fn(Kc) -> int, int), int, int)>|
                #[trigger] search_log(self.layout(), self.corpus(), self.constants(), self.costs(), log)
                    && log_best(log, r.kevs_found as int, r.cost as int),
    {
        let ghost layout = self.layout();
        let ghost kevs = self.corpus();
        let ghost cnst = self.constants();
        let ghost costs = self.costs();
        let ghost np = layout.len();
        let ghost len = kevs.len() as int;
        let ghost maxc = max_cost(costs, np as int);
        proof {
            assert(self.l.keys.len() == np);
            assert forall|p: int| 0 <= p < np implies costs[p] <= maxc by {
                lemma_max_cost(costs, np as int, p);
            }
            if np > 0 {
                lemma_max_cost(costs, np as int, 0);
            }
        }
        let mut q = queue_new();
        let mut best: (usize, u64) = (0, 0);
        let st = Node::new(self.l);
        let mut nodes: Vec<Node<'a>> = Vec::new();
        nodes.push(st.clone());
        let _ = queue_push(&mut q, 0, 0);
        let ghost mut sts = seq![node_state(st)];
        let ghost mut pending: Seq<u64> = seq![0u64];
        let ghost mut ex: Set<u64> = Set::empty();
        let ghost mut log: Seq<((spec_fn(usize) -> int, spec_fn(Kc) -> int, int), int, int)> = Seq::empty();
        proof {
            let e = Seq::<int>::empty();
            assert(walk_valid(layout, kevs, cnst, e));
            assert forall|q: usize| #[trigger] st.qmk.phys_counts().count(q) == 0 by {
                lemma_count_empty(st.qmk.phys_counts().entries(), q);
            }
            assert forall|k: Kc| #[trigger] st.qmk.key_counts().count(k) == 0 by {
                lemma_count_empty(st.qmk.key_counts().entries(), k);
            }
            assert(phys_of(st.qmk) =~= start_state().0);
            assert(keys_of(st.qmk) =~= start_state().1);
            assert forall|k: Kc| #[trigger] nodes@[0].qmk.key_counts().count(k) == held_count(
                phys_of(nodes@[0].qmk),
                layout,
                k,
                layout.len() as int,
            ) by {
                lemma_count_empty(st.qmk.key_counts().entries(), k);
                assert(phys_of(nodes@[0].qmk) =~= start_state().0) by {
                    assert forall|q: usize| #[trigger] phys_of(nodes@[0].qmk)(q) == 0 by {
                        lemma_count_empty(st.qmk.phys_counts().entries(), q);
                    }
                }
                lemma_held_start(layout, k, layout.len() as int);
            }
            assert(node_state(st) == start_state());
            assert(walk_state(layout, kevs, e) == node_state(nodes@[0]));
            lemma_same_node_state(nodes@[0], st);
            assert(sts[0] == start_state());
            assert(pending[0] == 0u64);
            assert(pending.contains(0u64));
            assert(owed(layout, kevs, cnst, costs, log, 0, queued(q), sts)) by {
                reveal(owed);
            }
        }
        loop
            invariant_except_break
                log.len() > 0 ==> log.last().0.2 < len,
            invariant
                layout == self.layout(),
                kevs == self.corpus(),
                cnst == self.constants(),
                costs == self.costs(),
                np == layout.len(),
                np <= usize::MAX,
                len == kevs.len(),
                maxc == max_cost(costs, np as int),
                0 <= maxc,
                np <= costs.len(),
                np < i32::MAX - 3,
                len + 6 * NUM_KC <= usize::MAX,
                (len + 6 * NUM_KC + 1) * (maxc + 1) <= i64::MAX,
                forall|p: int| 0 <= p < np ==> costs[p] <= maxc,
                nodes.len() == sts.len(),
                forall|i: int|
                    0 <= i < nodes.len() ==> node_state(#[trigger] nodes@[i]) == sts[i] && node_ok(
                        layout,
                        kevs,
                        cnst,
                        costs,
                        maxc,
                        nodes@[i],
                    ),
                forall|i: int| 0 <= i < nodes.len() ==> ex.contains(i as u64) || #[trigger] queued(q).contains_key(i as u64),
                forall|id: u64| #[trigger] queued(q).contains_key(id) ==> (id as int) < nodes.len(),
                pending.no_duplicates(),
                forall|id: u64| #[trigger] pending.contains(id) <==> queued(q).contains_key(id),
                forall|id: u64| #[trigger] ex.contains(id) ==> (id as int) < sts.len() && sts[id as int].2 <= best.0,
                forall|id: u64, p: int|
                    ex.contains(id) && #[trigger] step_valid(layout, kevs, cnst, sts[id as int], p) ==> sts.contains(
                        step_state(layout, kevs, sts[id as int], p),
                    ),
                sts.contains(start_state()),
                exists|ps: Seq<int>|
                    #[trigger] walk_valid(layout, kevs, cnst, ps) && walk_state(layout, kevs, ps).2 == best.0
                        && walk_cost(layout, kevs, costs, ps) == best.1,
                log.len() == 0 ==> queued(q).dom() =~= set![0u64] && queued(q)[0u64] == 0 && sts[0] == start_state()
                    && nodes@[0].cost == 0 && best == (0usize, 0u64),
                search_log_prefix(layout, kevs, cnst, costs, log),
                log.len() > 0 ==> log_best(log, best.0 as int, best.1 as int),
                owed(layout, kevs, cnst, costs, log, log.len() as int, queued(q), sts),
                log.len() == 0 || queue_costs_ok(layout, kevs, cnst, costs, queued(q), nodes@, sts),
            ensures
                exists|ps: Seq<int>|
                    #[trigger] walk_valid(layout, kevs, cnst, ps) && walk_state(layout, kevs, ps).2 == best.0
                        && walk_cost(layout, kevs, costs, ps) == best.1,
                best.0 >= len || forall|ps: Seq<int>|
                    #[trigger] walk_valid(layout, kevs, cnst, ps) ==> walk_state(layout, kevs, ps).2 <= best.0,
                search_log(layout, kevs, cnst, costs, log),
                log_best(log, best.0 as int, best.1 as int),
            decreases wsum(pending, weights(np, len, sts)),
        {
            let ghost w0 = wsum(pending, weights(np, len, sts));
            let ghost qb = queued(q);
            let popped = queue_pop(&mut q);
            let ghost popped_g = popped;
            let id: u64 = match popped {
                None => {
                    proof {
                        assert forall|i: int, p: int|
                            0 <= i < sts.len() && #[trigger] step_valid(layout, kevs, cnst, sts[i], p) implies sts.contains(
                            step_state(layout, kevs, sts[i], p),
                        ) by {
                            assert(!queued(q).contains_key(i as u64));
                            assert(ex.contains(i as u64));
                            assert(sts[(i as u64) as int] == sts[i]);
                        }
                        assert forall|ps: Seq<int>| #[trigger] walk_valid(layout, kevs, cnst, ps) implies walk_state(
                            layout,
                            kevs,
                            ps,
                        ).2 <= best.0 by {
                            lemma_walks_closed(layout, kevs, cnst, sts, ps);
                            let i = choose|i: int| 0 <= i < sts.len() && sts[i] == walk_state(layout, kevs, ps);
                            assert(!queued(q).contains_key(i as u64));
                            assert(ex.contains(i as u64));
                        }
                        assert(log.len() > 0) by {
                            if log.len() == 0 {
                                assert(queued(q).dom().contains(0u64));
                            }
                        }
                        lemma_owed_empty(layout, kevs, cnst, costs, log, queued(q), sts);
                    }
                    break;
                },
                Some(e) => e.0,
            };
            proof {
                assert(pending.contains(id));
                let j = choose|j: int| 0 <= j < pending.len() && pending[j] == id;
                lemma_wsum_remove(pending, weights(np, len, sts), j);
                let p2 = pending.remove(j);
                assert forall|x: u64| #[trigger] p2.contains(x) <==> queued(q).contains_key(x) by {
                    if p2.contains(x) {
                        let t = choose|t: int| 0 <= t < p2.len() && p2[t] == x;
                        if t < j {
                            assert(pending[t] == x);
                        } else {
                            assert(pending[t + 1] == x);
                        }
                        assert(pending.contains(x));
                        assert(x != id);
                    }
                    if queued(q).contains_key(x) {
                        assert(pending.contains(x));
                        let t = choose|t: int| 0 <= t < pending.len() && pending[t] == x;
                        assert(t != j);
                        if t < j {
                            assert(p2[t] == x);
                        } else {
                            assert(p2[t - 1] == x);
                        }
                    }
                }
                pending = p2;
                ex = ex.insert(id);
            }
            let _ = queue_remove(&mut q, id);
            let n = nodes[id as usize].clone();
            proof {
                lemma_same_node_state(n, nodes@[id as int]);
            }
            let ghost best0 = best;
            if n.idx > best.0 || (n.idx == best.0 && n.cost < best.1) {
                best = (n.idx, n.cost);
            }
            proof {
                assert(popped_g == Some((id, qb[id])));
                assert(queued(q) == qb.remove(id));
                lemma_node_reached(layout, kevs, cnst, costs, maxc, nodes@[id as int]);
                lemma_log_pop(
                    layout,
                    kevs,
                    cnst,
                    costs,
                    log,
                    qb,
                    queued(q),
                    nodes@,
                    sts,
                    id,
                    n.cost as int,
                    (best0.0 as int, best0.1 as int),
                    (best.0 as int, best.1 as int),
                );
                log = log.push((sts[id as int], n.cost as int, qb[id] as int));
                assert(log.last().0.2 == n.idx);
                if n.idx >= len {
                    lemma_owed_finished(layout, kevs, cnst, costs, log, queued(q), sts);
                }
            }
            if n.idx >= self.kevs.len() {
                break;
            }
            let kev = self.kevs[n.idx];
            let edges = n.qmk.key_ev_edges(kev);
            let ghost cur = id;
            let ghost s = sts[id as int];
            let ghost m = (len - n.idx) as nat;
            let ghost bw = pw((np + 1) as nat, (m - 1) as nat);
            let ghost wap = wsum(pending, weights(np, len, sts));
            let ghost pred = |i: int| is_edge(layout[i], kev);
            let ghost f = |i: int| edge_pevs(n.qmk.layout(), kev, i);
            let ghost filt = Seq::new(np, |i: int| i).filter(pred);
            proof {
                lemma_pw_mono((np + 1) as nat, (m - 1) as nat, (m - 1) as nat);
                assert(pw((np + 1) as nat, m) == (np + 1) * bw);
                assert(weights(np, len, sts)(id) == pw((np + 1) as nat, m));
                assert(wap + (np + 1) * bw == w0);
                let all = Seq::new(np, |i: int| i);
                all.lemma_filter_len(pred);
                assert(edges@.map_values(|v: Vec<PhysEv>| v@) == filt.map_values(f));
                assert(edges@.map_values(|v: Vec<PhysEv>| v@).len() == edges@.len());
                assert(filt.map_values(f).len() == filt.len());
                assert(edges.len() == filt.len());
                assert forall|i: int| 0 <= i < filt.len() implies pred(#[trigger] filt[i]) && 0 <= filt[i] < np by {
                    all.lemma_filter_pred(pred, i);
                    assert(filt.contains(filt[i]));
                    all.lemma_filter_contains_rev(pred, filt[i]);
                    let j = choose|j: int| 0 <= j < all.len() && all[j] == filt[i];
                }
                lemma_node_ok_same(layout, kevs, cnst, costs, maxc, nodes@[id as int], n);
                assert(owed_steps(layout, kevs, cnst, costs, s, n.cost as int, filt, 0, queued(q), sts)) by {
                    reveal(owed_steps);
                }
            }
            let mut k: usize = 0;
            while k < edges.len()
                invariant
                    layout == self.layout(),
                    kevs == self.corpus(),
                    cnst == self.constants(),
                    costs == self.costs(),
                    np == layout.len(),
                    np <= usize::MAX,
                    len == kevs.len(),
                    maxc == max_cost(costs, np as int),
                    0 <= maxc,
                    np <= costs.len(),
                    np < i32::MAX - 3,
                    len + 6 * NUM_KC <= usize::MAX,
                    (len + 6 * NUM_KC + 1) * (maxc + 1) <= i64::MAX,
                    forall|p: int| 0 <= p < np ==> costs[p] <= maxc,
                    nodes.len() == sts.len(),
                    forall|i: int|
                        0 <= i < nodes.len() ==> node_state(#[trigger] nodes@[i]) == sts[i] && node_ok(
                            layout,
                            kevs,
                            cnst,
                            costs,
                            maxc,
                            nodes@[i],
                        ),
                    forall|i: int| 0 <= i < nodes.len() ==> ex.contains(i as u64) || #[trigger] queued(q).contains_key(i as u64),
                    forall|id: u64| #[trigger] queued(q).contains_key(id) ==> (id as int) < nodes.len(),
                    pending.no_duplicates(),
                    forall|id: u64| #[trigger] pending.contains(id) <==> queued(q).contains_key(id),
                    forall|id: u64| #[trigger] ex.contains(id) ==> (id as int) < sts.len() && sts[id as int].2 <= best.0,
                    forall|id: u64, p: int|
                        ex.contains(id) && id != cur && #[trigger] step_valid(layout, kevs, cnst, sts[id as int], p)
                            ==> sts.contains(step_state(layout, kevs, sts[id as int], p)),
                    sts.contains(start_state()),
                    exists|ps: Seq<int>|
                        #[trigger] walk_valid(layout, kevs, cnst, ps) && walk_state(layout, kevs, ps).2 == best.0
                            && walk_cost(layout, kevs, costs, ps) == best.1,
                    ex.contains(cur),
                    (cur as int) < sts.len(),
                    sts[cur as int] == s,
                    node_state(n) == s,
                    node_ok(layout, kevs, cnst, costs, maxc, n),
                    n.idx < len,
                    kev == kevs[n.idx as int],
                    m == len - n.idx,
                    pred == (|i: int| is_edge(layout[i], kev)),
                    f == (|i: int| edge_pevs(n.qmk.layout(), kev, i)),
                    filt == Seq::new(np, |i: int| i).filter(pred),
                    edges@.map_values(|v: Vec<PhysEv>| v@) == filt.map_values(f),
                    edges.len() == filt.len(),
                    filt.len() <= np,
                    forall|i: int| 0 <= i < filt.len() ==> pred(#[trigger] filt[i]) && 0 <= filt[i] < np,
                    k <= edges.len(),
                    forall|k2: int|
                        0 <= k2 < k && #[trigger] step_valid(layout, kevs, cnst, s, filt[k2]) ==> sts.contains(
                            step_state(layout, kevs, s, filt[k2]),
                        ),
                    bw == pw((np + 1) as nat, (m - 1) as nat),
                    1 <= bw,
                    wsum(pending, weights(np, len, sts)) <= wap + k * bw,
                    wap + (np + 1) * bw == w0,
                    log.len() >= 1,
                    log.last().0 == s,
                    log.last().1 == n.cost as int,
                    search_log_prefix(layout, kevs, cnst, costs, log),
                    log_best(log, best.0 as int, best.1 as int),
                    owed(layout, kevs, cnst, costs, log, log.len() - 1, queued(q), sts),
                    owed_steps(layout, kevs, cnst, costs, s, n.cost as int, filt, k as int, queued(q), sts),
                    queue_costs_ok(layout, kevs, cnst, costs, queued(q), nodes@, sts),
                decreases edges.len() - k,
            {
                let ghost p = filt[k as int];
                let ghost e = edge_pevs(layout, kev, p);
                proof {
                    assert(edges@.map_values(|v: Vec<PhysEv>| v@)[k as int] == edges@[k as int]@);
                    assert(filt.map_values(f)[k as int] == f(p));
                    assert(edges@[k as int]@ == e);
                    assert(step_pevs(layout, kevs, s, p) == e);
                    lemma_edge_pevs(layout, kev, p);
                    lemma_run_events_min(layout, e);
                    lemma_run_events_len(layout, e);
                    lemma_pevs_cost_prefix(costs, e, 0);
                }
                let pevs = edges[k].as_slice();
                let ghost sts0 = sts;
                let ghost pend0 = pending;
                let ghost q0 = queued(q);
                let ghost nodes0 = nodes@;
                proof {
                    assert(pevs@ == e);
                    assert(n.idx + 2 * NUM_KC * pevs.len() <= usize::MAX) by (nonlinear_arith)
                        requires
                            n.idx < len,
                            len + 6 * NUM_KC <= usize::MAX,
                            pevs.len() <= 3,
                            0 <= NUM_KC,
                    ;
                }
                let next = n.clone();
                proof {
                    lemma_same_node_state(next, n);
                    assert(phys_of(next.qmk) == phys_of(n.qmk));
                    assert(keys_of(next.qmk) == keys_of(n.qmk));
                    assert forall|q: usize| 0 <= #[trigger] next.qmk.phys_counts().count(q) <= 1 by {
                        assert(n.qmk.phys_counts().count(q) == next.qmk.phys_counts().count(q));
                    }
                    assert forall|kc: Kc| 0 <= #[trigger] next.qmk.key_counts().count(kc) <= i32::MAX - pevs.len() by {
                        assert(n.qmk.key_counts().count(kc) == next.qmk.key_counts().count(kc));
                        assert forall|q: usize| 0 <= #[trigger] phys_of(n.qmk)(q) <= 1 by {
                            assert(phys_of(n.qmk)(q) == n.qmk.phys_counts().count(q));
                        }
                        lemma_held_bound(phys_of(n.qmk), layout, kc, np as int);
                    }
                }
                let t = self.try_pevs(next, pevs);
                match t {
                    None => {
                        proof {
                            assert(!step_valid(layout, kevs, cnst, s, p));
                            assert((k + 1) * bw == k * bw + bw) by (nonlinear_arith);
                            assert(queue_grew(q0, queued(q)));
                            assert forall|k2: int|
                                0 <= k2 < k + 1 && #[trigger] step_valid(layout, kevs, cnst, s, filt[k2]) implies sts.contains(
                                step_state(layout, kevs, s, filt[k2]),
                            ) by {
                                if k2 == k {
                                    assert(filt[k2] == p);
                                }
                            }
                        }
                    },
                    Some(child) => {
                        let mut child = child;
                        let ghost cs = step_state(layout, kevs, s, p);
                        proof {
                            assert(step_valid(layout, kevs, cnst, s, p));
                            assert(node_state(child) == cs);
                            assert forall|i: int| 0 <= i < pevs.len() implies (#[trigger] pevs[i]).phys < self.costs().len()
                                && costs[pevs[i].phys as int] <= maxc by {
                                assert(pevs[i] == e[i]);
                            }
                            lemma_pevs_cost_bound(costs, e, maxc);
                            let ci = child.idx as int;
                            let ni = n.idx as int;
                            let ne = run_events(layout, e).len() as int;
                            let pc = pevs_cost(costs, e);
                            assert(ci == ni + ne);
                            assert(ne <= 6 * NUM_KC) by (nonlinear_arith)
                                requires
                                    ne <= 2 * NUM_KC * e.len(),
                                    e.len() <= 3,
                            ;
                            assert(n.cost + pc <= ci * maxc) by (nonlinear_arith)
                                requires
                                    n.cost <= ni * maxc,
                                    pc <= e.len() * maxc,
                                    e.len() <= ne,
                                    ci == ni + ne,
                                    0 <= maxc,
                            ;
                            assert(ci <= len + 6 * NUM_KC);
                            assert(ci * maxc + len <= i64::MAX) by (nonlinear_arith)
                                requires
                                    (len + 6 * NUM_KC + 1) * (maxc + 1) <= i64::MAX,
                                    ci <= len + 6 * NUM_KC,
                                    0 <= ci,
                                    0 <= len,
                                    0 <= maxc,
                            ;
                        }
                        let c = self.phys_cost(pevs);
                        child.cost = child.cost + c;
                        let pri: i128 = child.cost as i128 + self.kevs.len() as i128 - child.idx as i128;
                        let prio: i64 = -(pri as i64);
                        let ghost ccost = child.cost as int;
                        proof {
                            lemma_child_ok(layout, kevs, cnst, costs, maxc, n, child, p);
                            lemma_node_reached(layout, kevs, cnst, costs, maxc, child);
                            assert(prio as int == step_priority(layout, kevs, costs, s, n.cost as int, p));
                            assert(prio == -(ccost + kevs.len() - cs.2));
                        }
                        proof {
                            lemma_child_weight(np, len, n.idx as int, child.idx as int);
                            assert((k + 1) * bw == k * bw + bw) by (nonlinear_arith);
                        }
                        let found = find_node(&nodes, &child);
                        match found {
                            Some(i) => {
                                proof {
                                    lemma_same_node_state(nodes@[i as int], child);
                                    assert(sts[i as int] == cs);
                                    assert(sts.contains(cs));
                                }
                                let was = queue_push_increase(&mut q, i as u64, prio);
                                let ghost was_g = was;
                                if was.is_none() {
                                    nodes.set(i, child);
                                    proof {
                                        assert(!pend0.contains(i as u64));
                                        lemma_pending_push(pend0, i as u64, weights(np, len, sts));
                                        pending = pending.push(i as u64);
                                        assert forall|j: int|
                                            0 <= j < nodes.len() implies node_state(#[trigger] nodes@[j]) == sts[j]
                                            && node_ok(layout, kevs, cnst, costs, maxc, nodes@[j]) by {
                                            if j != i {
                                                assert(nodes@[j] == nodes0[j]);
                                            }
                                        }
                                        assert forall|x: u64| #[trigger] pending.contains(x) <==> queued(q).contains_key(x) by {
                                            assert(queued(q).contains_key(x) <==> (q0.contains_key(x) || x == i as u64));
                                        }
                                        assert forall|j: int| 0 <= j < nodes.len() implies ex.contains(j as u64)
                                            || #[trigger] queued(q).contains_key(j as u64) by {
                                            assert(ex.contains(j as u64) || q0.contains_key(j as u64));
                                        }
                                    }
                                } else {
                                    proof {
                                        assert forall|x: u64| #[trigger] queued(q).contains_key(x) <==> q0.contains_key(x) by {
                                            if x == i as u64 {
                                                assert(q0.contains_key(x));
                                            }
                                        }
                                        assert forall|j: int| 0 <= j < nodes.len() implies ex.contains(j as u64)
                                            || #[trigger] queued(q).contains_key(j as u64) by {
                                            assert(ex.contains(j as u64) || q0.contains_key(j as u64));
                                        }
                                    }
                                }
                                proof {
                                    assert forall|k2: int|
                                        0 <= k2 < k + 1 && #[trigger] step_valid(layout, kevs, cnst, s, filt[k2]) implies sts.contains(
                                        step_state(layout, kevs, s, filt[k2]),
                                    ) by {
                                        if k2 == k {
                                            assert(filt[k2] == p);
                                        }
                                    }
                                    assert(sts == sts0);
                                    lemma_costs_after_push(
                                        layout,
                                        kevs,
                                        cnst,
                                        costs,
                                        q0,
                                        queued(q),
                                        nodes0,
                                        nodes@,
                                        sts0,
                                        sts,
                                        i as u64,
                                        prio,
                                        was_g,
                                        ccost,
                                        cs,
                                    );
                                }
                            },
                            None => {
                                nodes.push(child);
                                let i = nodes.len() - 1;
                                proof {
                                    assert(!q0.contains_key(i as u64));
                                }
                                let was = queue_push_increase(&mut q, i as u64, prio);
                                let ghost was_g = was;
                                proof {
                                    lemma_push_contains(sts0, cs);
                                    sts = sts.push(cs);
                                    assert forall|j: int| 0 <= j < pend0.len() implies weights(np, len, sts0)(
                                        #[trigger] pend0[j],
                                    ) == weights(np, len, sts)(pend0[j]) by {
                                        assert(pend0.contains(pend0[j]));
                                        assert(q0.contains_key(pend0[j]));
                                        assert(sts[pend0[j] as int] == sts0[pend0[j] as int]);
                                    }
                                    lemma_wsum_congruent(pend0, weights(np, len, sts0), weights(np, len, sts));
                                    assert(!pend0.contains(i as u64));
                                    lemma_pending_push(pend0, i as u64, weights(np, len, sts));
                                    pending = pending.push(i as u64);
                                    assert(sts[i as int] == cs);
                                    assert forall|j: int|
                                        0 <= j < nodes.len() implies node_state(#[trigger] nodes@[j]) == sts[j]
                                        && node_ok(layout, kevs, cnst, costs, maxc, nodes@[j]) by {
                                        if j < i {
                                            assert(nodes@[j] == nodes0[j]);
                                            assert(sts[j] == sts0[j]);
                                        }
                                    }
                                    assert forall|x: u64| #[trigger] pending.contains(x) <==> queued(q).contains_key(x) by {
                                        assert(queued(q).contains_key(x) <==> (q0.contains_key(x) || x == i as u64));
                                    }
                                    assert forall|j: int| 0 <= j < nodes.len() implies ex.contains(j as u64)
                                        || #[trigger] queued(q).contains_key(j as u64) by {
                                        if j < i {
                                            assert(ex.contains(j as u64) || q0.contains_key(j as u64));
                                        }
                                    }
                                    assert forall|x: u64| #[trigger] ex.contains(x) implies (x as int) < sts.len()
                                        && sts[x as int].2 <= best.0 by {
                                        assert(sts[x as int] == sts0[x as int]);
                                    }
                                    assert forall|x: u64, p2: int|
                                        ex.contains(x) && x != cur && #[trigger] step_valid(layout, kevs, cnst, sts[x as int], p2)
                                            implies sts.contains(step_state(layout, kevs, sts[x as int], p2)) by {
                                        assert(sts[x as int] == sts0[x as int]);
                                        assert(step_valid(layout, kevs, cnst, sts0[x as int], p2));
                                    }
                                    assert forall|k2: int|
                                        0 <= k2 < k + 1 && #[trigger] step_valid(layout, kevs, cnst, s, filt[k2]) implies sts.contains(
                                        step_state(layout, kevs, s, filt[k2]),
                                    ) by {
                                        if k2 == k {
                                            assert(filt[k2] == p);
                                        } else {
                                            assert(sts0.contains(step_state(layout, kevs, s, filt[k2])));
                                        }
                                    }
                                    assert(sts[cur as int] == sts0[cur as int]);
                                    lemma_costs_after_push(
                                        layout,
                                        kevs,
                                        cnst,
                                        costs,
                                        q0,
                                        queued(q),
                                        nodes0,
                                        nodes@,
                                        sts0,
                                        sts,
                                        i as u64,
                                        prio,
                                        was_g,
                                        ccost,
                                        cs,
                                    );
                                }
                            },
                        }
                    },
                }
                proof {
                    assert(filt[k as int] == p);
                    lemma_owed_kept(layout, kevs, cnst, costs, log, log.len() - 1, q0, queued(q), sts0, sts);
                    lemma_owed_steps_next(layout, kevs, cnst, costs, s, n.cost as int, filt, k as int, q0, queued(q), sts0, sts);
                }
                k = k + 1;
            }
            proof {
                let all = Seq::new(np, |i: int| i);
                assert forall|p: int| #[trigger] step_valid(layout, kevs, cnst, s, p) implies sts.contains(
                    step_state(layout, kevs, s, p),
                ) by {
                    assert(all[p] == p);
                    assert(pred(all[p]));
                    all.lemma_filter_contains(pred, p);
                    assert(filt.contains(p));
                    let k2 = choose|k2: int| 0 <= k2 < filt.len() && filt[k2] == p;
                    assert(step_valid(layout, kevs, cnst, s, filt[k2]));
                }
                assert forall|p: int| #[trigger] step_valid(layout, kevs, cnst, log.last().0, p) implies exists|k2: int|
                    0 <= k2 < filt.len() && filt[k2] == p by {
                    assert(all[p] == p);
                    assert(pred(all[p]));
                    all.lemma_filter_contains(pred, p);
                    assert(filt.contains(p));
                }
                assert(filt.len() == edges.len());
                lemma_owed_close(layout, kevs, cnst, costs, log, filt, queued(q), sts);
                assert forall|x: u64, p: int|
                    ex.contains(x) && #[trigger] step_valid(layout, kevs, cnst, sts[x as int], p) implies sts.contains(
                    step_state(layout, kevs, sts[x as int], p),
                ) by {
                    if x == cur {
                        assert(step_valid(layout, kevs, cnst, s, p));
                    }
                }
                assert(edges.len() * bw <= np * bw) by (nonlinear_arith)
                    requires
                        edges.len() <= np,
                        0 <= bw,
                ;
                assert((np + 1) * bw == np * bw + bw) by (nonlinear_arith);
                assert(wsum(pending, weights(np, len, sts)) < w0);
            }
        }
        PathResult { kevs_found: best.0, cost: best.1 }
    }

    /// Applies the physical key events `pevs` to the keyboard of `n`, and checks that the
    /// key events they give are those of the corpus from `n.idx` on (past its end, anything
    /// goes). The state that results, with `idx` moved past those events; `None` when a
    /// physical key event is refused or an event differs from the corpus.
    fn try_pevs<'b>(&self, from: Node<'b>, pevs: &[PhysEv]) -> (r: Option<Node<'b>>)
        requires
            from.qmk.wf(),
            forall|i: int| 0 <= i < pevs.len() ==> (#[trigger] pevs[i]).phys < from.qmk.layout().len(),
            forall|q: usize| 0 <= #[trigger] from.qmk.phys_counts().count(q) <= 1,
            forall|k: Kc| 0 <= #[trigger] from.qmk.key_counts().count(k) <= i32::MAX - pevs.len(),
            from.idx + 2 * NUM_KC * pevs.len() <= usize::MAX,
        ensures
            r is Some <==> run_accepted(phys_of(from.qmk), keys_of(from.qmk), from.qmk.layout(), pevs@, self.constants())
                && events_agree(self.corpus(), from.idx as int, run_events(from.qmk.layout(), pevs@)),
            r matches Some(m) ==> {
                &&& m.qmk.wf()
                &&& m.qmk.layout() == from.qmk.layout()
                &&& phys_of(m.qmk) == run_counts(phys_of(from.qmk), keys_of(from.qmk), from.qmk.layout(), pevs@).0
                &&& keys_of(m.qmk) == run_counts(phys_of(from.qmk), keys_of(from.qmk), from.qmk.layout(), pevs@).1
                &&& m.idx == from.idx + run_events(from.qmk.layout(), pevs@).len()
                &&& m.cost == from.cost
            },
    {
        let ghost n0 = from;
        let ghost layout = from.qmk.layout();
        let ghost ph0 = phys_of(from.qmk);
        let ghost ks0 = keys_of(from.qmk);
        let ghost cnst = self.constants();
        let mut n = from;
        let mut kevs_qmk: Vec<KeyEv> = Vec::new();
        let mut i: usize = 0;
        while i < pevs.len()
            invariant
                i <= pevs.len(),
                n0 == from,
                n.qmk.wf(),
                n.qmk.layout() == layout,
                n.idx == n0.idx,
                n.cost == n0.cost,
                cnst == self.constants(),
                ph0 == phys_of(n0.qmk),
                ks0 == keys_of(n0.qmk),
                layout == n0.qmk.layout(),
                forall|i: int| 0 <= i < pevs.len() ==> (#[trigger] pevs[i]).phys < layout.len(),
                run_accepted(ph0, ks0, layout, pevs@.take(i as int), cnst),
                phys_of(n.qmk) == run_counts(ph0, ks0, layout, pevs@.take(i as int)).0,
                keys_of(n.qmk) == run_counts(ph0, ks0, layout, pevs@.take(i as int)).1,
                kevs_qmk@ == run_events(layout, pevs@.take(i as int)),
                forall|q: usize| 0 <= #[trigger] n.qmk.phys_counts().count(q) <= 1,
                forall|k: Kc| 0 <= #[trigger] n.qmk.key_counts().count(k) <= i32::MAX - pevs.len() + i,
            decreases pevs.len() - i,
        {
            let pev = pevs[i];
            let ghost before = n.qmk;
            proof {
                assert(pevs@.take(i as int + 1).drop_last() =~= pevs@.take(i as int));
                assert(pevs@.take(i as int + 1).last() == pev);
                assert(pevs[i as int].phys < layout.len());
            }
            let evs = n.qmk.event(pev, self.cnst);
            proof {
                lemma_qmk_event(before, pev, cnst, n.qmk, evs);
            }
            match evs {
                None => {
                    proof {
                        if run_accepted(ph0, ks0, layout, pevs@, cnst) {
                            lemma_run_accepted_prefix(ph0, ks0, layout, pevs@, cnst, i as int + 1);
                            let t = pevs@.take(i as int + 1);
                            assert(t.drop_last() =~= pevs@.take(i as int));
                            assert(run_accepted(ph0, ks0, layout, t, cnst));
                            assert(pev_accepted(phys_of(before), keys_of(before), layout, pev, cnst));
                        }
                    }
                    return None;
                },
                Some(evs) => {
                    let mut evs = evs;
                    kevs_qmk.append(&mut evs);
                    proof {
                        let d = spec_press_to_count(pev.press);
                        assert forall|q: usize| 0 <= #[trigger] n.qmk.phys_counts().count(q) <= 1 by {
                            assert(phys_of(n.qmk)(q) == n.qmk.phys_counts().count(q));
                            assert(phys_of(before)(q) == before.phys_counts().count(q));
                        }
                        assert forall|k: Kc| 0 <= #[trigger] n.qmk.key_counts().count(k) <= i32::MAX - pevs.len() + i + 1 by {
                            assert(keys_of(n.qmk)(k) == n.qmk.key_counts().count(k));
                            assert(keys_of(before)(k) == before.key_counts().count(k));
                            if layout[pev.phys as int].has(k) {
                                assert(!kc_refused(k, keys_of(before)(k) + d, max_mod(cnst)));
                            }
                        }
                    }
                },
            }
            i = i + 1;
        }
        proof {
            assert(pevs@.take(pevs.len() as int) =~= pevs@);
            lemma_run_events_len(layout, pevs@);
        }
        let ghost evs_all = kevs_qmk@;
        let ghost q1 = n.qmk;
        let mut j: usize = 0;
        while j < kevs_qmk.len()
            invariant
                j <= kevs_qmk.len(),
                n0 == from,
                evs_all == run_events(n0.qmk.layout(), pevs@),
                kevs_qmk@ == evs_all,
                n.qmk == q1,
                n.cost == n0.cost,
                n.idx == n0.idx + j,
                n0.idx + evs_all.len() <= usize::MAX,
                events_agree(self.corpus(), n0.idx as int, evs_all.take(j as int)),
            decreases kevs_qmk.len() - j,
        {
            let ev = kevs_qmk[j];
            if n.idx < self.kevs.len() && ev != self.kevs[n.idx] {
                proof {
                    assert(evs_all[j as int] != self.corpus()[n0.idx + j]);
                    assert(!events_agree(self.corpus(), n0.idx as int, evs_all));
                }
                return None;
            }
            proof {
                assert forall|t: int| 0 <= t < evs_all.take(j as int + 1).len() && n0.idx + t < self.corpus().len()
                    implies #[trigger] evs_all.take(j as int + 1)[t] == self.corpus()[n0.idx + t] by {
                    if t < j {
                        assert(evs_all.take(j as int)[t] == evs_all.take(j as int + 1)[t]);
                    }
                }
            }
            n.idx = n.idx + 1;
            j = j + 1;
        }
        proof {
            assert(evs_all.take(evs_all.len() as int) =~= evs_all);
        }
        Some(n)
    }
}

} // verus!
