use crate::models::count_map::{lemma_find, lemma_push_contains, seq_count, spec_find};
use crate::types::{Kc, KcSet};
use vstd::prelude::*;

verus! {

/// A key: a key code and the modifiers held with it.
#[derive(Debug, Clone, Copy, PartialEq, Eq, Structural, Hash, PartialOrd, Ord)]
pub struct Key {
    pub kc: Kc,
    pub md: KcSet,
}

impl Key {
    pub fn new(kc: Kc, md: KcSet) -> (r: Key)
        ensures
            r == (Key { kc, md }),
    {
        Key { kc, md }
    }

    /// This key with the modifiers `mods` held as well.
    pub fn with_mods(self, mods: KcSet) -> (r: Key)
        ensures
            r.kc == self.kc,
            forall|k: Kc| r.md.has(k) == (self.md.has(k) || mods.has(k)),
    {
        let md = self.md.union(&mods);
        Key { kc: self.kc, md }
    }
}

/// A key event: `count` presses (positive) or releases (negative) of a key.
#[derive(Debug, Clone, Copy, PartialEq, Eq, Structural, Hash)]
pub struct KeyEv {
    pub key: Key,
    pub count: i32,
}

impl KeyEv {
    pub fn new(key: Key, count: i32) -> (r: KeyEv)
        ensures
            r == (KeyEv { key, count }),
    {
        KeyEv { key, count }
    }

    /// One press of `key`.
    pub fn press(key: Key) -> (r: KeyEv)
        ensures
            r == (KeyEv { key, count: 1 }),
    {
        KeyEv { key, count: 1 }
    }

    /// One release of `key`.
    pub fn release(key: Key) -> (r: KeyEv)
        ensures
            r == (KeyEv { key, count: -1i32 }),
    {
        KeyEv { key, count: -1 }
    }
}

/// `s` with `c` added to the count of `k`, a new entry for `k` at the end if it has none.
pub open spec fn spec_adjust(s: Seq<(Kc, i32)>, k: Kc, c: int) -> Seq<(Kc, i32)> {
    let i = spec_find(s, k);
    if i >= 0 {
        s.update(i, (k, (s[i].1 + c) as i32))
    } else {
        s.push((k, c as i32))
    }
}

/// Adjusting the count of `k` moves that count by `c` and no other.
pub proof fn lemma_adjust(s: Seq<(Kc, i32)>, k: Kc, c: int)
    requires
        i32::MIN <= seq_count(s, k) + c <= i32::MAX,
    ensures
        forall|k2: Kc|
            #[trigger] seq_count(spec_adjust(s, k, c), k2) == seq_count(s, k2) + if k2 == k {
                c
            } else {
                0
            },
{
    lemma_find(s, k);
    let t = spec_adjust(s, k, c);
    assert forall|k2: Kc|
        #[trigger] seq_count(t, k2) == seq_count(s, k2) + if k2 == k {
            c
        } else {
            0
        } by {
        lemma_find(s, k2);
        lemma_find(t, k2);
        let i = spec_find(s, k);
        let j = spec_find(s, k2);
        let j2 = spec_find(t, k2);
        if i >= 0 {
            if j2 >= 0 && j >= 0 {
                if j2 < j {
                    assert(t[j2].0 == s[j2].0);
                } else if j < j2 {
                    assert(t[j].0 == k2);
                }
            } else if j2 >= 0 {
                assert(t[j2].0 == s[j2].0);
            } else if j >= 0 {
                assert(t[j].0 == k2);
            }
        } else {
            if j2 >= 0 && j >= 0 {
                if j2 < j {
                    assert(t[j2].0 == s[j2].0);
                } else if j < j2 {
                    assert(t[j].0 == k2);
                }
            } else if j2 >= 0 {
                if j2 < s.len() {
                    assert(t[j2].0 == s[j2].0);
                }
            } else if j >= 0 {
                assert(t[j].0 == k2);
            } else {
                assert(t[s.len() as int].0 == k);
            }
        }
    }
}

/// `s` after adjusting, in turn, the counts of the first `n` keys of `ks` by `c`.
pub open spec fn adjust_all(s: Seq<(Kc, i32)>, ks: Seq<Kc>, c: int, n: int) -> Seq<(Kc, i32)>
    decreases n,
{
    if n <= 0 {
        s
    } else {
        spec_adjust(adjust_all(s, ks, c, n - 1), ks[n - 1], c)
    }
}

/// Whether one of the first `n` entries of `md` holds `k` with a positive count.
pub open spec fn held_upto(md: Seq<(Kc, i32)>, k: Kc, n: int) -> bool
    decreases n,
{
    n > 0 && (held_upto(md, k, n - 1) || (md[n - 1].0 == k && md[n - 1].1 > 0))
}

/// Whether modifier `k` is held: an entry of `md` holds it with a positive count.
pub open spec fn held(md: Seq<(Kc, i32)>, k: Kc) -> bool {
    held_upto(md, k, md.len() as int)
}

/// Tracks how many times each key code and each modifier is held.
#[derive(Debug, Clone, Ord, PartialOrd, Eq, PartialEq, Hash)]
pub struct KeySet {
    pub kc: Vec<(Kc, i32)>,
    pub md: Vec<(Kc, i32)>,
}

impl KeySet {
    pub fn new() -> (r: Self)
        ensures
            r.kc@ == Seq::<(Kc, i32)>::empty(),
            r.md@ == Seq::<(Kc, i32)>::empty(),
    {
        Self { kc: Vec::new(), md: Vec::new() }
    }

    /// The modifiers held.
    pub fn mods(&self) -> (r: KcSet)
        ensures
            forall|k: Kc| r.has(k) == held(self.md@, k),
    {
        let mut mods = KcSet::new();
        let mut i: usize = 0;
        while i < self.md.len()
            invariant
                i <= self.md@.len(),
                forall|k: Kc| mods.has(k) == held_upto(self.md@, k, i as int),
            decreases self.md.len() - i,
        {
            if self.md[i].1 > 0 {
                mods.insert(self.md[i].0);
            }
            i = i + 1;
        }
        mods
    }

    /// Adds `count` to the count of `key` in `v`, giving it an entry at the end if it has
    /// none, and returns the new count.
    fn adjust_count(v: &mut Vec<(Kc, i32)>, key: Kc, count: i32) -> (r: i32)
        requires
            i32::MIN <= seq_count(old(v)@, key) + count <= i32::MAX,
        ensures
            r == seq_count(old(v)@, key) + count,
            final(v)@ == spec_adjust(old(v)@, key, count as int),
    {
        let mut i: usize = 0;
        while i < v.len()
            invariant
                i <= v@.len(),
                v@ == old(v)@,
                i32::MIN <= seq_count(old(v)@, key) + count <= i32::MAX,
                forall|j: int| 0 <= j < i ==> (#[trigger] v@[j]).0 != key,
            decreases v.len() - i,
        {
            if v[i].0 == key {
                proof {
                    lemma_find(v@, key);
                    assert(spec_find(v@, key) == i);
                }
                let nv = v[i].1 + count;
                v.set(i, (key, nv));
                return nv;
            }
            i = i + 1;
        }
        proof {
            lemma_find(v@, key);
        }
        v.push((key, count));
        count
    }

    /// Whether `kev` can be applied: no count of its modifiers or its key code would drop
    /// below zero. Gives every one of them an entry (of count zero if new); no count
    /// changes.
    pub fn valid(&mut self, kev: KeyEv) -> (r: bool)
        requires
            forall|k: Kc|
                kev.key.md.has(k) ==> i32::MIN <= #[trigger] seq_count(old(self).md@, k)
                    + kev.count <= i32::MAX,
            i32::MIN <= seq_count(old(self).kc@, kev.key.kc) + kev.count <= i32::MAX,
        ensures
            r == ((forall|k: Kc|
                kev.key.md.has(k) ==> #[trigger] seq_count(old(self).md@, k) + kev.count >= 0)
                && seq_count(old(self).kc@, kev.key.kc) + kev.count >= 0),
            forall|k: Kc| #[trigger] seq_count(final(self).md@, k) == seq_count(old(self).md@, k),
            forall|k: Kc| #[trigger] seq_count(final(self).kc@, k) == seq_count(old(self).kc@, k),
    {
        let ghost md0 = self.md@;
        let v = kev.key.md.to_vec();
        proof {
            kev.key.md.lemma_elems();
        }
        let mut i: usize = 0;
        while i < v.len()
            invariant
                i <= v@.len(),
                v@ == kev.key.md.elems(),
                v@.no_duplicates(),
                forall|k: Kc| #[trigger] kev.key.md.elems().contains(k) <==> kev.key.md.has(k),
                md0 == old(self).md@,
                self.kc@ == old(self).kc@,
                forall|k: Kc|
                    kev.key.md.has(k) ==> i32::MIN <= #[trigger] seq_count(md0, k) + kev.count
                        <= i32::MAX,
                forall|k: Kc| #[trigger] seq_count(self.md@, k) == seq_count(md0, k),
                forall|j: int| 0 <= j < i ==> seq_count(md0, #[trigger] v@[j]) + kev.count >= 0,
            decreases v.len() - i,
        {
            let k = v[i];
            proof {
                assert(kev.key.md.elems().contains(k));
                lemma_adjust(self.md@, k, 0);
            }
            if Self::adjust_count(&mut self.md, k, 0) + kev.count < 0 {
                return false;
            }
            i = i + 1;
        }
        proof {
            lemma_adjust(self.kc@, kev.key.kc, 0);
            assert forall|k: Kc| kev.key.md.has(k) implies #[trigger] seq_count(md0, k) + kev.count
                >= 0 by {
                assert(kev.key.md.elems().contains(k));
                let w = choose|w: int| 0 <= w < v@.len() && v@[w] == k;
                assert(seq_count(md0, v@[w]) + kev.count >= 0);
            }
        }
        Self::adjust_count(&mut self.kc, kev.key.kc, 0) + kev.count >= 0
    }

    /// Applies `kev`: adds its count to those of its modifiers and of its key code. When
    /// the key code's count drops back to zero, the key has been typed: a press and a
    /// release of it, with the modifiers now held as well, are returned. `None`, with
    /// nothing changed, when a count would drop below zero or leave the `i32` range.
    pub fn key_event(&mut self, kev: KeyEv) -> (r: Option<Vec<KeyEv>>)
        ensures
            r is None <==> kev.count != 0 && (!(forall|k: Kc|
                kev.key.md.has(k) ==> 0 <= #[trigger] seq_count(old(self).md@, k) + kev.count
                    <= i32::MAX) || !(0 <= seq_count(old(self).kc@, kev.key.kc) + kev.count
                <= i32::MAX)),
            r is None || kev.count == 0 ==> *final(self) == *old(self),
            r matches Some(evs) ==> kev.count != 0 ==> {
                &&& final(self).md@ == adjust_all(
                    old(self).md@,
                    kev.key.md.elems(),
                    kev.count as int,
                    kev.key.md.elems().len() as int,
                )
                &&& final(self).kc@ == spec_adjust(old(self).kc@, kev.key.kc, kev.count as int)
                &&& forall|k: Kc| #[trigger] seq_count(final(self).md@, k) == seq_count(old(self).md@, k)
                    + if kev.key.md.has(k) {
                    kev.count as int
                } else {
                    0
                }
                &&& if seq_count(final(self).kc@, kev.key.kc) == 0 {
                    &&& evs@.len() == 2
                    &&& evs@[0].count == 1
                    &&& evs@[1].count == -1
                    &&& evs@[0].key == evs@[1].key
                    &&& evs@[0].key.kc == kev.key.kc
                    &&& forall|k: Kc| #[trigger] evs@[0].key.md.has(k) == (kev.key.md.has(k)
                        || held(final(self).md@, k))
                } else {
                    evs@.len() == 0
                }
            },
            r matches Some(evs) ==> kev.count == 0 ==> evs@.len() == 0,
    {
        let mut evs: Vec<KeyEv> = Vec::new();
        if kev.count == 0 {
            return Some(evs);
        }
        let v = kev.key.md.to_vec();
        proof {
            kev.key.md.lemma_elems();
        }
        // Check first that no count leaves its range.
        let mut i: usize = 0;
        while i < v.len()
            invariant
                i <= v@.len(),
                v@ == kev.key.md.elems(),
                forall|k: Kc| #[trigger] kev.key.md.elems().contains(k) <==> kev.key.md.has(k),
                *self == *old(self),
                kev.count != 0,
                forall|j: int|
                    0 <= j < i ==> 0 <= seq_count(self.md@, #[trigger] v@[j]) + kev.count
                        <= i32::MAX,
            decreases v.len() - i,
        {
            let c = self.count_of_md(v[i]);
            if c < 0 - kev.count as i64 || c > i32::MAX as i64 - kev.count as i64 {
                proof {
                    assert(kev.key.md.elems().contains(v@[i as int]));
                    assert(!(0 <= seq_count(old(self).md@, v@[i as int]) + kev.count <= i32::MAX));
                }
                return None;
            }
            i = i + 1;
        }
        let c = Self::count_of(&self.kc, kev.key.kc);
        if c < 0 - kev.count as i64 || c > i32::MAX as i64 - kev.count as i64 {
            return None;
        }
        proof {
            assert forall|k: Kc| kev.key.md.has(k) implies 0 <= #[trigger] seq_count(self.md@, k)
                + kev.count <= i32::MAX by {
                assert(kev.key.md.elems().contains(k));
                let w = choose|w: int| 0 <= w < v@.len() && v@[w] == k;
                assert(0 <= seq_count(self.md@, v@[w]) + kev.count <= i32::MAX);
            }
        }
        // First update mod status in case we generate a letter key event.
        let ghost md0 = self.md@;
        let mut i: usize = 0;
        while i < v.len()
            invariant
                i <= v@.len(),
                v@ == kev.key.md.elems(),
                v@.no_duplicates(),
                forall|k: Kc| #[trigger] kev.key.md.elems().contains(k) <==> kev.key.md.has(k),
                forall|k: Kc|
                    kev.key.md.has(k) ==> 0 <= #[trigger] seq_count(md0, k) + kev.count
                        <= i32::MAX,
                md0 == old(self).md@,
                self.kc@ == old(self).kc@,
                evs@.len() == 0,
                kev.count != 0,
                0 <= seq_count(old(self).kc@, kev.key.kc) + kev.count <= i32::MAX,
                self.md@ == adjust_all(md0, v@, kev.count as int, i as int),
                forall|k: Kc|
                    #[trigger] seq_count(self.md@, k) == seq_count(md0, k) + if v@.take(
                        i as int,
                    ).contains(k) {
                        kev.count as int
                    } else {
                        0
                    },
            decreases v.len() - i,
        {
            let k = v[i];
            proof {
                assert(kev.key.md.elems().contains(k));
                assert(!v@.take(i as int).contains(k)) by {
                    if v@.take(i as int).contains(k) {
                        let w = choose|w: int| 0 <= w < i && v@.take(i as int)[w] == k;
                        assert(v@[w] == v@[i as int]);
                    }
                }
                lemma_adjust(self.md@, k, kev.count as int);
                assert(v@.take(i as int + 1) =~= v@.take(i as int).push(k));
                lemma_push_contains(v@.take(i as int), k);
            }
            Self::adjust_count(&mut self.md, k, kev.count);
            i = i + 1;
        }
        proof {
            assert(v@.take(v@.len() as int) =~= v@);
            lemma_adjust(self.kc@, kev.key.kc, kev.count as int);
        }
        let kc_count = Self::adjust_count(&mut self.kc, kev.key.kc, kev.count);
        if kc_count == 0 {
            let held_mods = self.mods();
            let produced_key = kev.key.with_mods(held_mods);
            proof {
                assert forall|k: Kc| produced_key.md.has(k) == (kev.key.md.has(k) || held(self.md@, k)) by {
                    assert(held_mods.has(k) == held(self.md@, k));
                }
            }
            evs.push(KeyEv::new(produced_key, 1));
            evs.push(KeyEv::new(produced_key, -1));
        }
        Some(evs)
    }

    /// The count of modifier `k`.
    fn count_of_md(&self, k: Kc) -> (r: i64)
        ensures
            r == seq_count(self.md@, k),
    {
        Self::count_of(&self.md, k)
    }

    /// The count of `k` in `v`: that of its first entry, zero if it has none.
    fn count_of(v: &Vec<(Kc, i32)>, k: Kc) -> (r: i64)
        ensures
            r == seq_count(v@, k),
    {
        let mut i: usize = 0;
        while i < v.len()
            invariant
                i <= v@.len(),
                forall|j: int| 0 <= j < i ==> (#[trigger] v@[j]).0 != k,
            decreases v.len() - i,
        {
            if v[i].0 == k {
                proof {
                    lemma_find(v@, k);
                    assert(spec_find(v@, k) == i);
                }
                return v[i].1 as i64;
            }
            i = i + 1;
        }
        proof {
            lemma_find(v@, k);
        }
        0
    }
}

} // verus!
