use memelay::fitness::Node as CorpusNode;
use memelay::models::layout::Layout;
use memelay::path::{Node, PathResult};
use memelay::types::KcSet;

#[test]
fn path_fitness() {}

#[test]
fn search_nodes_start_empty() {
    let layout = Layout::new(vec![KcSet::new()]);
    let n = Node::new(&layout);
    assert_eq!(n.idx, 0);
    assert_eq!(n.cost, 0);
    let m = CorpusNode::new(&layout, 7);
    assert_eq!(m.start_idx, 7);
    assert_eq!(m.corpus_idx, 7);
    let r = PathResult { kevs_found: 3, cost: 9 };
    assert_eq!(r, PathResult { kevs_found: 3, cost: 9 });
}

use memelay::constants::Constants;
use memelay::path::{LayoutCfg, PathFinder};
use memelay::types::{Kc, KeyEv};

fn single(kc: Kc) -> KcSet {
    KcSet::single(kc)
}

#[test]
fn path_types_press_and_release() {
    let layout = Layout::new(vec![single(Kc::A)]);
    let cfg = LayoutCfg { layout: "X".to_string(), cost: vec![3] };
    let kevs = vec![KeyEv::press(single(Kc::A)), KeyEv::release(single(Kc::A))];
    let cnst = Constants::default();
    let pf = PathFinder::new(&cfg, &kevs, &cnst, &layout);
    assert_eq!(pf.path(), PathResult { kevs_found: 2, cost: 6 });
}

#[test]
fn path_takes_the_roll() {
    // Key 1 rolls onto key 0: pressing it types A, releases it and presses key 0, three
    // events for a cost of 2 + 2 + 5, which reaches past the end of the corpus first.
    let layout = Layout::new(vec![single(Kc::A), single(Kc::A), single(Kc::B)]);
    let cfg = LayoutCfg { layout: "X X X".to_string(), cost: vec![5, 2, 1] };
    let kevs = vec![KeyEv::press(single(Kc::A)), KeyEv::release(single(Kc::A))];
    let cnst = Constants::default();
    let pf = PathFinder::new(&cfg, &kevs, &cnst, &layout);
    assert_eq!(pf.path(), PathResult { kevs_found: 3, cost: 9 });
}

#[test]
fn path_stops_where_no_key_types_on() {
    let layout = Layout::new(vec![single(Kc::A), single(Kc::B)]);
    let cfg = LayoutCfg { layout: "X X".to_string(), cost: vec![1, 1] };
    let kevs = vec![
        KeyEv::press(single(Kc::A)),
        KeyEv::release(single(Kc::A)),
        KeyEv::press(single(Kc::C)),
    ];
    let cnst = Constants::default();
    let pf = PathFinder::new(&cfg, &kevs, &cnst, &layout);
    assert_eq!(pf.path(), PathResult { kevs_found: 2, cost: 2 });
}

#[test]
fn path_of_empty_corpus() {
    let layout = Layout::new(vec![single(Kc::A)]);
    let cfg = LayoutCfg { layout: "X".to_string(), cost: vec![1] };
    let kevs: Vec<KeyEv> = Vec::new();
    let cnst = Constants::default();
    let pf = PathFinder::new(&cfg, &kevs, &cnst, &layout);
    assert_eq!(pf.path(), PathResult { kevs_found: 0, cost: 0 });
    assert_eq!(cfg.num_physical(), 1);
}
