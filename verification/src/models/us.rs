use crate::constants::Constants;
use crate::models::count_map::CountMap;
use crate::models::key_automata::KeyAutomata;
use crate::models::layout::Layout;
use crate::models::Model;
use crate::types::{Kc, KcSet, KeyEv, PhysEv};
use vstd::prelude::*;

verus! {

/// The key codes of the physical keys of a US keyboard, one key code per key.
pub open spec fn us_layout_kcs() -> Seq<Kc> {
    seq![
        Kc::Num0,
        Kc::Num1,
        Kc::Num2,
        Kc::Num3,
        Kc::Num4,
        Kc::Num5,
        Kc::Num6,
        Kc::Num7,
        Kc::Num8,
        Kc::Num9,
        Kc::A,
        Kc::B,
        Kc::C,
        Kc::D,
        Kc::E,
        Kc::F,
        Kc::G,
        Kc::H,
        Kc::I,
        Kc::J,
        Kc::K,
        Kc::L,
        Kc::M,
        Kc::N,
        Kc::O,
        Kc::P,
        Kc::Q,
        Kc::R,
        Kc::S,
        Kc::T,
        Kc::U,
        Kc::V,
        Kc::W,
        Kc::X,
        Kc::Y,
        Kc::Z,
        Kc::F1,
        Kc::F2,
        Kc::F3,
        Kc::F4,
        Kc::F5,
        Kc::F6,
        Kc::F7,
        Kc::F8,
        Kc::F9,
        Kc::F10,
        Kc::F11,
        Kc::F12,
        Kc::Enter,
        Kc::Esc,
        Kc::Backspace,
        Kc::Tab,
        Kc::Space,
        Kc::Insert,
        Kc::Delete,
        Kc::Home,
        Kc::End,
        Kc::PageUp,
        Kc::PageDn,
        Kc::Up,
        Kc::Down,
        Kc::Left,
        Kc::Right,
        Kc::NumLock,
        Kc::ScrollLock,
        Kc::MediaVolDown,
        Kc::Pause,
        Kc::App,
        Kc::Minus,
        Kc::Equals,
        Kc::LeftBracket,
        Kc::RightBracket,
        Kc::Backslash,
        Kc::Semicolon,
        Kc::Quote,
        Kc::Grave,
        Kc::Comma,
        Kc::Dot,
        Kc::Slash,
        Kc::Alt,
        Kc::Ctrl,
        Kc::Shift,
        Kc::Super,
        Kc::Alt,
        Kc::Ctrl,
        Kc::Shift,
    ]
}

/// The layout of a US keyboard.
pub fn us_layout() -> (r: Layout)
    ensures
        r.keys@ == us_layout_kcs().map_values(|k: Kc| KcSet::spec_single(k)),
{
    let mut keys: Vec<KcSet> = Vec::new();
    keys.push(KcSet::single(Kc::Num0));
    keys.push(KcSet::single(Kc::Num1));
    keys.push(KcSet::single(Kc::Num2));
    keys.push(KcSet::single(Kc::Num3));
    keys.push(KcSet::single(Kc::Num4));
    keys.push(KcSet::single(Kc::Num5));
    keys.push(KcSet::single(Kc::Num6));
    keys.push(KcSet::single(Kc::Num7));
    keys.push(KcSet::single(Kc::Num8));
    keys.push(KcSet::single(Kc::Num9));
    keys.push(KcSet::single(Kc::A));
    keys.push(KcSet::single(Kc::B));
    keys.push(KcSet::single(Kc::C));
    keys.push(KcSet::single(Kc::D));
    keys.push(KcSet::single(Kc::E));
    keys.push(KcSet::single(Kc::F));
    keys.push(KcSet::single(Kc::G));
    keys.push(KcSet::single(Kc::H));
    keys.push(KcSet::single(Kc::I));
    keys.push(KcSet::single(Kc::J));
    keys.push(KcSet::single(Kc::K));
    keys.push(KcSet::single(Kc::L));
    keys.push(KcSet::single(Kc::M));
    keys.push(KcSet::single(Kc::N));
    keys.push(KcSet::single(Kc::O));
    keys.push(KcSet::single(Kc::P));
    keys.push(KcSet::single(Kc::Q));
    keys.push(KcSet::single(Kc::R));
    keys.push(KcSet::single(Kc::S));
    keys.push(KcSet::single(Kc::T));
    keys.push(KcSet::single(Kc::U));
    keys.push(KcSet::single(Kc::V));
    keys.push(KcSet::single(Kc::W));
    keys.push(KcSet::single(Kc::X));
    keys.push(KcSet::single(Kc::Y));
    keys.push(KcSet::single(Kc::Z));
    keys.push(KcSet::single(Kc::F1));
    keys.push(KcSet::single(Kc::F2));
    keys.push(KcSet::single(Kc::F3));
    keys.push(KcSet::single(Kc::F4));
    keys.push(KcSet::single(Kc::F5));
    keys.push(KcSet::single(Kc::F6));
    keys.push(KcSet::single(Kc::F7));
    keys.push(KcSet::single(Kc::F8));
    keys.push(KcSet::single(Kc::F9));
    keys.push(KcSet::single(Kc::F10));
    keys.push(KcSet::single(Kc::F11));
    keys.push(KcSet::single(Kc::F12));
    keys.push(KcSet::single(Kc::Enter));
    keys.push(KcSet::single(Kc::Esc));
    keys.push(KcSet::single(Kc::Backspace));
    keys.push(KcSet::single(Kc::Tab));
    keys.push(KcSet::single(Kc::Space));
    keys.push(KcSet::single(Kc::Insert));
    keys.push(KcSet::single(Kc::Delete));
    keys.push(KcSet::single(Kc::Home));
    keys.push(KcSet::single(Kc::End));
    keys.push(KcSet::single(Kc::PageUp));
    keys.push(KcSet::single(Kc::PageDn));
    keys.push(KcSet::single(Kc::Up));
    keys.push(KcSet::single(Kc::Down));
    keys.push(KcSet::single(Kc::Left));
    keys.push(KcSet::single(Kc::Right));
    keys.push(KcSet::single(Kc::NumLock));
    keys.push(KcSet::single(Kc::ScrollLock));
    keys.push(KcSet::single(Kc::MediaVolDown));
    keys.push(KcSet::single(Kc::Pause));
    keys.push(KcSet::single(Kc::App));
    keys.push(KcSet::single(Kc::Minus));
    keys.push(KcSet::single(Kc::Equals));
    keys.push(KcSet::single(Kc::LeftBracket));
    keys.push(KcSet::single(Kc::RightBracket));
    keys.push(KcSet::single(Kc::Backslash));
    keys.push(KcSet::single(Kc::Semicolon));
    keys.push(KcSet::single(Kc::Quote));
    keys.push(KcSet::single(Kc::Grave));
    keys.push(KcSet::single(Kc::Comma));
    keys.push(KcSet::single(Kc::Dot));
    keys.push(KcSet::single(Kc::Slash));
    keys.push(KcSet::single(Kc::Alt));
    keys.push(KcSet::single(Kc::Ctrl));
    keys.push(KcSet::single(Kc::Shift));
    keys.push(KcSet::single(Kc::Super));
    keys.push(KcSet::single(Kc::Alt));
    keys.push(KcSet::single(Kc::Ctrl));
    keys.push(KcSet::single(Kc::Shift));
    proof {
        assert(keys@ =~= us_layout_kcs().map_values(|k: Kc| KcSet::spec_single(k)));
    }
    Layout::new(keys)
}

/// A US keyboard: every physical key produces one key code.
#[derive(Debug, Clone, PartialEq, Eq, Hash)]
pub struct UsModel {
    layout: Layout,
    phys: CountMap<usize>,
    ks: KeyAutomata,
}

impl Default for UsModel {
    fn default() -> (r: Self)
        ensures
            r.layout() == us_layout_kcs().map_values(|k: Kc| KcSet::spec_single(k)),
            r.phys_counts().entries() == Seq::<(usize, i32)>::empty(),
            r.key_counts().entries() == Seq::<(Kc, i32)>::empty(),
            r.wf(),
    {
        Self::new()
    }
}

impl UsModel {
    /// The layout.
    pub closed spec fn layout(self) -> Seq<KcSet> {
        self.layout.keys@
    }

    /// How many times each physical key is held.
    pub closed spec fn phys_counts(self) -> CountMap<usize> {
        self.phys
    }

    /// How many times each key code is held.
    pub closed spec fn key_counts(self) -> CountMap<Kc> {
        self.ks.counts()
    }

    /// The counts are well formed.
    pub open spec fn wf(self) -> bool {
        self.phys_counts().wf()
    }

    pub fn new() -> (r: Self)
        ensures
            r.layout() == us_layout_kcs().map_values(|k: Kc| KcSet::spec_single(k)),
            r.phys_counts().entries() == Seq::<(usize, i32)>::empty(),
            r.key_counts().entries() == Seq::<(Kc, i32)>::empty(),
            r.wf(),
    {
        Self { layout: us_layout(), phys: CountMap::new(), ks: KeyAutomata::new() }
    }

    /// The key codes physical key `phys` produces.
    pub fn get_key(&self, phys: usize) -> (r: KcSet)
        requires
            phys < self.layout().len(),
        ensures
            r == self.layout()[phys as int],
    {
        self.layout.keys[phys]
    }
}

impl Model for UsModel {
    open spec fn model_layout(&self) -> Seq<KcSet> {
        self.layout()
    }

    open spec fn model_phys(&self) -> CountMap<usize> {
        self.phys_counts()
    }

    open spec fn model_keys(&self) -> CountMap<Kc> {
        self.key_counts()
    }

    /// Applies a physical key event, as a QMK keyboard with the US layout does.
    fn event(&mut self, pev: PhysEv, cnst: &Constants) -> (r: Option<Vec<KeyEv>>) {
        let c = self.phys.adjust_count(pev.phys, pev.press);
        if !(0 <= c && c <= 1) {
            return None;
        }
        let kcset = self.get_key(pev.phys);
        self.ks.event(KeyEv::new(kcset, pev.press), cnst)
    }

    /// The count of each held key code.
    fn kc_counts(&self) -> (r: &CountMap<Kc>) {
        self.ks.kc_counts()
    }
}

} // verus!
