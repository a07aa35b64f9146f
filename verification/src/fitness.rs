use crate::models::layout::Layout;
use crate::models::qmk::QmkModel;
use crate::models::us::{us_layout_kcs, UsModel};
use crate::types::{Kc, KcSet};
use vstd::prelude::*;

verus! {

/// A state of the search that types a corpus on a layout: the keyboard typing it, the
/// US keyboard that wrote it, and where in the corpus the search started and has got to.
#[derive(Debug, Clone, PartialEq, Eq, Hash)]
pub struct Node<'a> {
    pub qmk: QmkModel<'a>,
    pub us: UsModel,
    pub start_idx: usize,
    pub corpus_idx: usize,
}

impl<'a> Node<'a> {
    /// The start of a search on `layout` from position `corpus_idx` of the corpus: nothing
    /// held on either keyboard.
    pub fn new(layout: &'a Layout, corpus_idx: usize) -> (r: Self)
        ensures
            r.qmk.layout() == layout.keys@,
            r.qmk.phys_counts().entries() == Seq::<(usize, i32)>::empty(),
            r.qmk.key_counts().entries() == Seq::<(Kc, i32)>::empty(),
            r.qmk.wf(),
            r.us.layout() == us_layout_kcs().map_values(|k: Kc| KcSet::spec_single(k)),
            r.us.phys_counts().entries() == Seq::<(usize, i32)>::empty(),
            r.us.key_counts().entries() == Seq::<(Kc, i32)>::empty(),
            r.us.wf(),
            r.start_idx == corpus_idx,
            r.corpus_idx == corpus_idx,
    {
        Self { qmk: QmkModel::new(layout), us: UsModel::new(), start_idx: corpus_idx, corpus_idx }
    }
}

} // verus!
