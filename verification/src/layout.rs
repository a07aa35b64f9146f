use crate::types::{kc_debug_name, spec_kc_debug_name, Kc};
use vstd::prelude::*;
use vstd::string::StringExecFns;

verus! {

/// The identifiers of `ks`, separated by a comma and a space.
pub open spec fn kc_list_body(ks: Seq<Kc>) -> Seq<char>
    decreases ks.len(),
{
    if ks.len() == 0 {
        Seq::empty()
    } else if ks.len() == 1 {
        spec_kc_debug_name(ks[0])
    } else {
        kc_list_body(ks.drop_last()) + seq![',', ' '] + spec_kc_debug_name(ks.last())
    }
}

/// `ks` written as a list: its identifiers between square brackets, comma separated.
pub open spec fn spec_kc_list(ks: Seq<Kc>) -> Seq<char> {
    seq!['['] + kc_list_body(ks) + seq![']']
}

/// Writes `ks` as a list, such as `[A, B, C]`.
pub fn format_kc_list(ks: &[Kc]) -> (r: String)
    ensures
        r@ == spec_kc_list(ks@),
{
    let mut s = String::new();
    s.append("[");
    proof {
        reveal_strlit("[");
        reveal_strlit(", ");
        reveal_strlit("]");
        assert(ks@.take(0) =~= Seq::<Kc>::empty());
    }
    let mut i: usize = 0;
    while i < ks.len()
        invariant
            i <= ks@.len(),
            s@ == seq!['['] + kc_list_body(ks@.take(i as int)),
            ", "@ == seq![',', ' '],
        decreases ks.len() - i,
    {
        proof {
            assert(ks@.take(i as int + 1).drop_last() =~= ks@.take(i as int));
        }
        if i > 0 {
            s.append(", ");
        }
        s.append(kc_debug_name(ks[i]));
        proof {
            let t = ks@.take(i as int + 1);
            assert(t.last() == ks@[i as int]);
            if i == 0 {
                assert(t =~= seq![ks@[0]]);
                assert(s@ =~= seq!['['] + kc_list_body(t));
            } else {
                assert(s@ =~= seq!['['] + kc_list_body(t));
            }
        }
        i = i + 1;
    }
    s.append("]");
    proof {
        assert(ks@.take(ks@.len() as int) =~= ks@);
    }
    s
}

/// A layout: the key each position holds.
#[derive(Debug, Clone, Default, Eq, PartialEq, Ord, PartialOrd, Hash)]
pub struct Layout {
    pub keys: Vec<Kc>,
}

impl Layout {
    pub fn new(keys: Vec<Kc>) -> (r: Self)
        ensures
            r.keys@ == keys@,
    {
        Self { keys }
    }

    /// The number of keys.
    pub fn size(&self) -> (r: usize)
        ensures
            r == self.keys@.len(),
    {
        self.keys.len()
    }

    /// The keys written as a list, such as `[A, B, C]`.
    pub fn to_string(&self) -> (r: String)
        ensures
            r@ == spec_kc_list(self.keys@),
    {
        format_kc_list(self.keys.as_slice())
    }
}

/// The QWERTY layout of the thirty main keys, row by row.
pub const QWERTY_KEYS: [Kc; 30] = [
    Kc::Q, Kc::W, Kc::E, Kc::R, Kc::T, Kc::Y, Kc::U, Kc::I, Kc::O, Kc::P,
    Kc::A, Kc::S, Kc::D, Kc::F, Kc::G, Kc::H, Kc::J, Kc::K, Kc::L, Kc::Semicolon,
    Kc::Z, Kc::X, Kc::C, Kc::V, Kc::B, Kc::N, Kc::M, Kc::Comma, Kc::Dot, Kc::Slash,
];

/// The Colemak-DHm layout of the thirty main keys, row by row.
pub const COLEMAK_DHM_KEYS: [Kc; 30] = [
    Kc::Q, Kc::W, Kc::F, Kc::P, Kc::B, Kc::J, Kc::L, Kc::U, Kc::Y, Kc::Semicolon,
    Kc::A, Kc::R, Kc::S, Kc::T, Kc::G, Kc::M, Kc::N, Kc::E, Kc::I, Kc::O,
    Kc::Z, Kc::X, Kc::C, Kc::D, Kc::V, Kc::K, Kc::H, Kc::Comma, Kc::Dot, Kc::Slash,
];

} // verus!
