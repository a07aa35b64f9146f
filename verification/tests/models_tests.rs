use memelay::constants::Constants;
use memelay::genome::{apply_genome_op, crossover_vec, genome_distance, GenomeOp};
use memelay::models::count_map::CountMap;
use memelay::models::key_automata::KeyAutomata;
use memelay::models::keyset::{Key, KeyEv as CountEv, KeySet};
use memelay::models::layer::{Layer, Layout as LayeredLayout};
use memelay::models::layout::Layout;
use memelay::models::qmk::QmkModel;
use memelay::models::tests::{kcm, merge_kcm};
use memelay::models::us::UsModel;
use memelay::models::{compute_kevs, Model};
use memelay::types::{Kc, KcSet, KeyEv, PhysEv};

fn set(kcs: &[Kc]) -> KcSet {
    let mut s = KcSet::new();
    for &k in kcs {
        s.insert(k);
    }
    s
}

fn cnst_mod5() -> Constants {
    Constants { max_mod_pressed: 5, ..Default::default() }
}

#[test]
fn regular_then_mod_then_release() {
    let cnst = cnst_mod5();
    let (sup, c) = (set(&[Kc::Super]), set(&[Kc::C]));
    let mut ks = KeyAutomata::new();
    assert_eq!(ks.event(KeyEv::press(c), &cnst).unwrap(), vec![KeyEv::press(c)]);
    assert_eq!(ks.event(KeyEv::press(sup), &cnst).unwrap(), vec![KeyEv::press(sup)]);
    assert_eq!(ks.event(KeyEv::release(c), &cnst).unwrap(), vec![KeyEv::release(c)]);
    assert_eq!(ks.event(KeyEv::release(sup), &cnst).unwrap(), vec![KeyEv::release(sup)]);
}

#[test]
fn key_automata_regular_letter() {
    let cnst = cnst_mod5();
    let c = set(&[Kc::C]);
    let mut ks = KeyAutomata::new();
    assert_eq!(ks.event(KeyEv::press(c), &cnst).unwrap(), vec![KeyEv::press(c)]);
    assert_eq!(ks.event(KeyEv::release(c), &cnst).unwrap(), vec![KeyEv::release(c)]);
}

#[test]
fn multiple_taps_separate() {
    let cnst = cnst_mod5();
    let c = set(&[Kc::C]);
    let mut ks = KeyAutomata::new();
    assert_eq!(ks.event(KeyEv::press(c), &cnst).unwrap(), vec![KeyEv::press(c)]);
    assert_eq!(ks.event(KeyEv::release(c), &cnst).unwrap(), vec![KeyEv::release(c)]);
    assert_eq!(ks.event(KeyEv::press(c), &cnst).unwrap(), vec![KeyEv::press(c)]);
    assert_eq!(ks.event(KeyEv::release(c), &cnst).unwrap(), vec![KeyEv::release(c)]);
}

#[test]
fn multiple_taps_interleaved() {
    let cnst = cnst_mod5();
    let c = set(&[Kc::C]);
    let mut ks = KeyAutomata::new();
    assert_eq!(ks.event(KeyEv::press(c), &cnst).unwrap(), vec![KeyEv::press(c)]);
    assert_eq!(ks.event(KeyEv::press(c), &cnst).unwrap(), vec![KeyEv::press(c)]);
    assert_eq!(ks.event(KeyEv::release(c), &cnst).unwrap(), vec![KeyEv::release(c)]);
    assert_eq!(ks.event(KeyEv::release(c), &cnst).unwrap(), vec![KeyEv::release(c)]);
}

#[test]
fn ctrl_c_split() {
    let cnst = cnst_mod5();
    let (ctrl, c) = (set(&[Kc::Ctrl]), set(&[Kc::C]));
    let mut ks = KeyAutomata::new();
    assert_eq!(ks.event(KeyEv::press(ctrl), &cnst).unwrap(), vec![KeyEv::press(ctrl)]);
    assert_eq!(ks.event(KeyEv::press(c), &cnst).unwrap(), vec![KeyEv::press(c)]);
    assert_eq!(ks.event(KeyEv::release(c), &cnst).unwrap(), vec![KeyEv::release(c)]);
    assert_eq!(ks.event(KeyEv::release(ctrl), &cnst).unwrap(), vec![KeyEv::release(ctrl)]);
}

#[test]
fn ctrl_c_coalesced() {
    let cnst = cnst_mod5();
    let (ctrl, c, ctrl_c) = (set(&[Kc::Ctrl]), set(&[Kc::C]), set(&[Kc::C, Kc::Ctrl]));
    let mut ks = KeyAutomata::new();
    assert_eq!(
        ks.event(KeyEv::press(ctrl_c), &cnst).unwrap(),
        vec![KeyEv::press(ctrl), KeyEv::press(c)]
    );
    assert_eq!(
        ks.event(KeyEv::release(ctrl_c), &cnst).unwrap(),
        vec![KeyEv::release(ctrl), KeyEv::release(c)]
    );
}

#[test]
fn key_automata_super_only() {
    let cnst = cnst_mod5();
    let sup = set(&[Kc::Super]);
    let mut ks = KeyAutomata::new();
    assert_eq!(ks.event(KeyEv::press(sup), &cnst).unwrap(), vec![KeyEv::press(sup)]);
    assert_eq!(ks.event(KeyEv::release(sup), &cnst).unwrap(), vec![KeyEv::release(sup)]);
}

#[test]
#[should_panic]
fn key_automata_release_must_follow_press() {
    let cnst = cnst_mod5();
    let mut ks = KeyAutomata::new();
    ks.event(KeyEv::release(set(&[Kc::Super])), &cnst).unwrap();
}

fn super_key() -> Key {
    Key::new(Kc::No, set(&[Kc::Super]))
}

#[test]
fn keyset_super_only() {
    let mut ks = KeySet::new();
    let kev = ks.key_event(CountEv::press(super_key())).unwrap();
    assert!(kev.is_empty());
    let kev = ks.key_event(CountEv::release(super_key())).unwrap();
    assert_eq!(kev, [CountEv::press(super_key()), CountEv::release(super_key())]);
}

#[test]
#[should_panic]
fn keyset_release_must_follow_press() {
    let mut ks = KeySet::new();
    ks.key_event(CountEv::release(super_key())).unwrap();
}

#[test]
fn keyset_typed_letter_carries_held_mods() {
    let mut ks = KeySet::new();
    let ctrl = Key::new(Kc::No, set(&[Kc::Ctrl]));
    let c = Key::new(Kc::C, KcSet::new());
    assert!(ks.key_event(CountEv::press(ctrl)).unwrap().is_empty());
    assert!(ks.key_event(CountEv::press(c)).unwrap().is_empty());
    let evs = ks.key_event(CountEv::release(c)).unwrap();
    let ctrl_c = Key::new(Kc::C, set(&[Kc::Ctrl]));
    assert_eq!(evs, vec![CountEv::press(ctrl_c), CountEv::release(ctrl_c)]);
    assert!(ks.valid(CountEv::release(ctrl)));
    assert!(!ks.valid(CountEv::release(c)));
    assert_eq!(ks.mods(), set(&[Kc::Ctrl]));
    assert_eq!(ks.key_event(CountEv::new(c, 0)).unwrap(), vec![]);
}

#[test]
fn layer_normalise_mod() {
    let mut l = Layer::new(&[set(&[Kc::C, Kc::Ctrl])]);
    l.normalise(0, 1);
    assert_eq!(l, Layer::new(&[set(&[Kc::C])]));
}

#[test]
fn layer_normalise_same() {
    let c = set(&[Kc::C]);
    let mut l = Layer::new(&[c, c]);
    l.normalise(0, 1);
    assert_eq!(l, Layer::new(&[c, KcSet::new()]));
}

#[test]
fn layer_normalise_mod_same() {
    let c = set(&[Kc::C]);
    let mut l = Layer::new(&[set(&[Kc::C, Kc::Ctrl]), c]);
    l.normalise(0, 1);
    assert_eq!(l, Layer::new(&[c, KcSet::new()]));
}

#[test]
fn layer_normalise_keeps_allowed_mods() {
    let ctrl_c = set(&[Kc::C, Kc::Ctrl]);
    let alt_a = set(&[Kc::A, Kc::Alt]);
    let mut l = Layer::new(&[ctrl_c, alt_a]);
    l.normalise(2, 1);
    assert_eq!(l, Layer::new(&[ctrl_c, alt_a]));
    // One of the two must lose its modifiers; which one is left to chance.
    let mut l = Layer::new(&[ctrl_c, alt_a]);
    l.normalise(1, 1);
    let stripped = [l.keys[0] == set(&[Kc::C]), l.keys[1] == set(&[Kc::A])];
    assert_eq!(stripped.iter().filter(|&&b| b).count(), 1);
}

#[test]
fn layered_layout_normalise() {
    let c = set(&[Kc::C]);
    let mut l = LayeredLayout::new().with_layer(Layer::new(&[c, c, c]));
    assert_eq!(l.num_physical(), 3);
    l.normalise();
    assert_eq!(l.layers[0], Layer::new(&[c, c, KcSet::new()]));
}

fn cnst_dup1() -> Constants {
    Constants { max_phys_dup: 1, ..Default::default() }
}

#[test]
fn layout_normalise_mod() {
    let mut l = Layout::new(vec![set(&[Kc::C, Kc::Ctrl])]);
    l.normalise(&cnst_dup1());
    assert_eq!(l, Layout::new(vec![set(&[Kc::C])]));
}

#[test]
fn layout_normalise_same() {
    let c = set(&[Kc::C]);
    let mut l = Layout::new(vec![c, c]);
    l.normalise(&cnst_dup1());
    assert_eq!(l, Layout::new(vec![c, KcSet::new()]));
}

#[test]
fn layout_normalise_mod_same() {
    let c = set(&[Kc::C]);
    let mut l = Layout::new(vec![set(&[Kc::C, Kc::Ctrl]), c]);
    l.normalise(&cnst_dup1());
    assert_eq!(l, Layout::new(vec![c, KcSet::new()]));
}

fn qmk_layout() -> Layout {
    Layout::new(vec![set(&[Kc::Super]), set(&[Kc::Ctrl]), set(&[Kc::C]), set(&[Kc::A]), KcSet::new()])
}

#[test]
fn qmk_regular_letter() {
    let layout = qmk_layout();
    let mut m = QmkModel::new(&layout);
    assert_eq!(
        m.event(PhysEv::new(2, true), &Constants::default()).unwrap(),
        vec![KeyEv::press(set(&[Kc::C]))]
    );
}

#[test]
fn kev_edges_does_not_use_none_keys() {
    let layout = qmk_layout();
    let m = QmkModel::new(&layout);
    assert_eq!(
        m.key_ev_edges(KeyEv::new(set(&[Kc::C]), true)),
        vec![vec![PhysEv::new(2, true)]]
    );
}

#[test]
fn qmk_edges_release() {
    let layout = qmk_layout();
    let m = QmkModel::new(&layout);
    assert_eq!(
        m.key_ev_edges(KeyEv::new(set(&[Kc::C]), false)),
        vec![vec![PhysEv::new(2, false)]]
    );
    assert_eq!(
        m.key_ev_edges(KeyEv::new(set(&[Kc::C, Kc::Ctrl]), true)),
        vec![vec![PhysEv::new(1, true)], vec![PhysEv::new(2, true)]]
    );
}

#[test]
fn us_model_types_letters() {
    let mut us = UsModel::new();
    let mut found = None;
    for i in 0..100 {
        if us.get_key(i) == set(&[Kc::A]) {
            found = Some(i);
            break;
        }
    }
    let a = found.unwrap();
    assert_eq!(us.event(PhysEv::new(a, true), &Constants::default()).unwrap(), vec![KeyEv::press(set(&[Kc::A]))]);
    assert_eq!(us.event(PhysEv::new(a, false), &Constants::default()).unwrap(), vec![KeyEv::release(set(&[Kc::A]))]);
}

#[test]
fn count_map_helpers() {
    let m = kcm(set(&[Kc::A, Kc::B]));
    assert_eq!(m.get_count(Kc::A), 1);
    assert_eq!(m.get_count(Kc::C), 0);
    let m = merge_kcm(m, set(&[Kc::A]));
    assert_eq!(m.get_count(Kc::A), 2);
    let mut cm: CountMap<Kc> = CountMap::new();
    assert_eq!(cm.adjust_count(Kc::A, true), 1);
    assert_eq!(cm.adjust_count(Kc::A, false), 0);
    assert_eq!(cm.num_pressed(), 0);
}

#[test]
fn genome_ops() {
    assert_eq!(crossover_vec(&[1, 2, 3], &[7, 8, 9], 1), vec![1, 8, 9]);
    let (a, b, c) = (set(&[Kc::A]), set(&[Kc::B]), set(&[Kc::C]));
    let p1 = LayeredLayout::new().with_layer(Layer::new(&[a, b])).with_layer(Layer::new(&[c, a]));
    let p2 = LayeredLayout::new().with_layer(Layer::new(&[c, c])).with_layer(Layer::new(&[b, b]));
    let child = apply_genome_op(&p1, &p2, GenomeOp::CrossLayers { crosspoint: 1 });
    assert_eq!(child.layers, vec![Layer::new(&[a, b]), Layer::new(&[b, b])]);
    let child = apply_genome_op(&p1, &p2, GenomeOp::SwapKeys { l1: 0, k1: 0, l2: 1, k2: 0 });
    assert_eq!(child.layers, vec![Layer::new(&[c, b]), Layer::new(&[a, a])]);
    let child = apply_genome_op(&p1, &p2, GenomeOp::MutateKey { layer: 1, key: 1, kcset: b });
    assert_eq!(child.layers, vec![Layer::new(&[a, b]), Layer::new(&[c, b])]);
}

#[test]
fn compute_kevs_on_qmk() {
    let layout = qmk_layout();
    let m = QmkModel::new(&layout);
    let pevs = vec![
        PhysEv::new(1, true),
        PhysEv::new(2, true),
        PhysEv::new(2, false),
        PhysEv::new(1, false),
    ];
    let cnst = Constants { max_mod_pressed: 1, ..Constants::default() };
    let kevs = compute_kevs(m, &pevs, &cnst);
    assert_eq!(
        kevs,
        vec![
            KeyEv::press(set(&[Kc::Ctrl])),
            KeyEv::press(set(&[Kc::C])),
            KeyEv::release(set(&[Kc::C])),
            KeyEv::release(set(&[Kc::Ctrl])),
        ]
    );
    // With no modifier allowed, the press of Ctrl is refused but stays counted, so its
    // release still comes out.
    let m = QmkModel::new(&layout);
    let kevs = compute_kevs(m, &pevs, &Constants::default());
    assert_eq!(
        kevs,
        vec![
            KeyEv::press(set(&[Kc::C])),
            KeyEv::release(set(&[Kc::C])),
            KeyEv::release(set(&[Kc::Ctrl])),
        ]
    );
}

#[test]
fn compute_kevs_skips_refused_events() {
    let layout = qmk_layout();
    let m = QmkModel::new(&layout);
    // A stray release, then a key pressed twice: both refused, the rest goes through.
    let pevs = vec![
        PhysEv::new(3, false),
        PhysEv::new(2, true),
        PhysEv::new(2, true),
        PhysEv::new(3, true),
    ];
    let kevs = compute_kevs(m, &pevs, &Constants::default());
    assert_eq!(kevs, vec![KeyEv::press(set(&[Kc::C])), KeyEv::press(set(&[Kc::A]))]);
    assert!(compute_kevs(UsModel::new(), &[], &Constants::default()).is_empty());
}

#[test]
fn model_kc_counts() {
    let layout = qmk_layout();
    let mut m = QmkModel::new(&layout);
    m.event(PhysEv::new(3, true), &Constants::default()).unwrap();
    assert_eq!(m.kc_counts().get_count(Kc::A), 1);
    let mut us = UsModel::new();
    assert_eq!(us.kc_counts().num_pressed(), 0);
    assert!(us.event(PhysEv::new(0, false), &Constants::default()).is_none());
}

#[test]
fn genome_distance_counts_layers_and_keys() {
    let a = set(&[Kc::A]);
    let b = set(&[Kc::B]);
    let c = set(&[Kc::C]);
    let p1 = LayeredLayout::new().with_layer(Layer::new(&[a, b])).with_layer(Layer::new(&[c, c]));
    let p2 = LayeredLayout::new().with_layer(Layer::new(&[a, c]));
    assert_eq!(genome_distance(&p1, &p2, 2), 3);
    assert_eq!(genome_distance(&p2, &p1, 2), 3);
    assert_eq!(genome_distance(&p1, &p1, 2), 0);
}

#[test]
fn kev_edges() {
    let layout = qmk_layout();
    let m = QmkModel::new(&layout);
    assert_eq!(m.key_ev_edges(KeyEv::new(set(&[Kc::C]), true)), vec![vec![PhysEv::new(2, true)]]);
    assert_eq!(
        m.key_ev_edges(KeyEv::new(set(&[Kc::A]), true)),
        vec![vec![PhysEv::new(3, true), PhysEv::new(3, false), PhysEv::new(2, true)]]
    );
    // May return invalid edges however.
    assert_eq!(m.key_ev_edges(KeyEv::new(set(&[Kc::C]), false)), vec![vec![PhysEv::new(2, false)]]);
}

#[test]
fn count_map_release_then_press_restores() {
    let mut cm: CountMap<Kc> = CountMap::new();
    cm.adjust_count(Kc::B, true);
    assert_eq!(cm.adjust_count(Kc::A, false), -1);
    assert_eq!(cm.adjust_count(Kc::A, true), 0);
    assert_eq!(cm.get_count(Kc::A), 0);
    assert_eq!(cm.num_pressed(), 1);
    assert_eq!(cm.peek_adjust(Kc::B, true), 2);
    assert_eq!(cm.adjust_count(Kc::B, true), 2);
}

#[test]
fn key_automata_run_counts() {
    let cnst = Constants { max_mod_pressed: 1, ..Constants::default() };
    let mut ks = KeyAutomata::new();
    ks.event(KeyEv::press(set(&[Kc::C, Kc::Ctrl])), &cnst).unwrap();
    ks.event(KeyEv::press(set(&[Kc::A])), &cnst).unwrap();
    ks.event(KeyEv::release(set(&[Kc::C])), &cnst).unwrap();
    assert_eq!(ks.kc_counts().get_count(Kc::C), 0);
    assert_eq!(ks.kc_counts().get_count(Kc::Ctrl), 1);
    assert_eq!(ks.kc_counts().get_count(Kc::A), 1);
    assert_eq!(ks.kc_counts().num_pressed(), 2);
}

#[test]
fn layout_normalise_twice_is_once() {
    let cnst = Constants { max_phys_dup: 1, max_phys_mod: 1, ..Default::default() };
    let cc = set(&[Kc::C, Kc::Ctrl]);
    let c = set(&[Kc::C]);
    let mut l = Layout::new(vec![cc, cc, c, KcSet::new(), KcSet::new()]);
    l.normalise(&cnst);
    let once = l.clone();
    assert_eq!(once, Layout::new(vec![cc, c, KcSet::new(), KcSet::new(), KcSet::new()]));
    l.normalise(&cnst);
    assert_eq!(l, once);
}

#[test]
fn layer_normalise_bounds() {
    let cc = set(&[Kc::C, Kc::Ctrl]);
    let mut layer = Layer::new(&[cc, cc, cc, set(&[Kc::A])]);
    layer.normalise(1, 1);
    assert_eq!(layer.keys.len(), 4);
    assert!(layer.keys.iter().filter(|k| !k.mods().is_empty()).count() <= 1);
    assert_eq!(layer.keys[3], set(&[Kc::A]));
}
