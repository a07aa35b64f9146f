use crate::types::{is_mod, kc_index, lemma_kc_index_injective, spec_is_mod, spec_kc_index, Kc, KcSet};
use vstd::std_specs::iter::IteratorSpec;
use vstd::prelude::*;
use vstd::relations::{sorted_by, total_ordering};

verus! {

broadcast use vstd::seq_lib::group_to_multiset_ensures, vstd::multiset::group_multiset_axioms;

/// Keys of a `CountMap`: each key has an integer that orders and identifies it.
pub trait CountKey: Copy + Sized {
    spec fn spec_key(self) -> int;

    fn key(&self) -> (r: u128)
        ensures
            r as int == self.spec_key(),
    ;

    proof fn lemma_key_injective(a: Self, b: Self)
        requires
            a.spec_key() == b.spec_key(),
        ensures
            a == b,
    ;
}

impl CountKey for Kc {
    open spec fn spec_key(self) -> int {
        spec_kc_index(self)
    }

    fn key(&self) -> (r: u128) {
        kc_index(*self) as u128
    }

    proof fn lemma_key_injective(a: Self, b: Self) {
        lemma_kc_index_injective(a, b);
    }
}

impl CountKey for usize {
    open spec fn spec_key(self) -> int {
        self as int
    }

    fn key(&self) -> (r: u128) {
        *self as u128
    }

    proof fn lemma_key_injective(a: Self, b: Self) {
    }
}

impl CountKey for KcSet {
    open spec fn spec_key(self) -> int {
        self.spec_bits() as int
    }

    fn key(&self) -> (r: u128) {
        self.bits_value()
    }

    proof fn lemma_key_injective(a: Self, b: Self) {
        KcSet::lemma_bits_injective(a, b);
    }
}

/// Entries are ordered by key, then by count.
pub open spec fn entry_le<T: CountKey>(a: (T, i32), b: (T, i32)) -> bool {
    a.0.spec_key() < b.0.spec_key() || (a.0.spec_key() == b.0.spec_key() && a.1 <= b.1)
}

pub open spec fn entry_lt<T: CountKey>(a: (T, i32), b: (T, i32)) -> bool {
    a.0.spec_key() < b.0.spec_key() || (a.0.spec_key() == b.0.spec_key() && a.1 < b.1)
}

/// `s` is in entry order.
pub open spec fn entries_sorted<T: CountKey>(s: Seq<(T, i32)>) -> bool {
    forall|i: int, j: int| 0 <= i < j < s.len() ==> entry_le(#[trigger] s[i], #[trigger] s[j])
}

/// `s` is in strictly increasing entry order.
pub open spec fn entries_strictly_sorted<T: CountKey>(s: Seq<(T, i32)>) -> bool {
    forall|i: int, j: int| 0 <= i < j < s.len() ==> entry_lt(#[trigger] s[i], #[trigger] s[j])
}

/// The counts that `from_vec` keeps of `v`: the distinct entries with positive count, in order.
pub open spec fn from_vec_result<T: CountKey>(v: Seq<(T, i32)>, r: Seq<(T, i32)>) -> bool {
    &&& entries_strictly_sorted(r)
    &&& forall|p: (T, i32)| #[trigger] r.contains(p) <==> (v.contains(p) && p.1 > 0)
}

/// The index of the first entry for `k` at or after `i`, or -1.
pub open spec fn spec_find_from<T: CountKey>(s: Seq<(T, i32)>, k: T, i: int) -> int
    decreases s.len() - i,
{
    if i < 0 || i >= s.len() {
        -1
    } else if s[i].0 == k {
        i
    } else {
        spec_find_from(s, k, i + 1)
    }
}

/// The index of the first entry for `k`, or -1.
pub open spec fn spec_find<T: CountKey>(s: Seq<(T, i32)>, k: T) -> int {
    spec_find_from(s, k, 0)
}

/// +1 for a press, -1 for a release.
pub open spec fn spec_press_to_count(press: bool) -> int {
    if press {
        1
    } else {
        -1
    }
}

fn press_to_count(press: bool) -> (r: i32)
    ensures
        r == spec_press_to_count(press),
{
    if press {
        1
    } else {
        -1
    }
}

proof fn lemma_find_from<T: CountKey>(s: Seq<(T, i32)>, k: T, i: int)
    requires
        0 <= i <= s.len(),
    ensures
        spec_find_from(s, k, i) == -1 || i <= spec_find_from(s, k, i) < s.len(),
        spec_find_from(s, k, i) == -1 <==> forall|j: int| i <= j < s.len() ==> (#[trigger] s[j]).0 != k,
        spec_find_from(s, k, i) >= 0 ==> s[spec_find_from(s, k, i)].0 == k && forall|j: int|
            i <= j < spec_find_from(s, k, i) ==> (#[trigger] s[j]).0 != k,
    decreases s.len() - i,
{
    if i < s.len() && s[i].0 != k {
        lemma_find_from(s, k, i + 1);
    }
}

pub proof fn lemma_find<T: CountKey>(s: Seq<(T, i32)>, k: T)
    ensures
        -1 <= spec_find(s, k) < s.len(),
        spec_find(s, k) == -1 <==> forall|i: int| 0 <= i < s.len() ==> (#[trigger] s[i]).0 != k,
        spec_find(s, k) >= 0 ==> s[spec_find(s, k)].0 == k && forall|j: int|
            0 <= j < spec_find(s, k) ==> (#[trigger] s[j]).0 != k,
{
    lemma_find_from(s, k, 0);
}

pub proof fn lemma_insert_multiset<A>(s: Seq<A>, p: int, x: A)
    requires
        0 <= p <= s.len(),
    ensures
        s.insert(p, x).to_multiset() =~= s.to_multiset().insert(x),
{
    let a = s.subrange(0, p);
    let b = s.subrange(p, s.len() as int);
    assert(s =~= a + b);
    assert(s.insert(p, x) =~= a.push(x) + b);
    vstd::seq_lib::lemma_multiset_commutative(a.push(x), b);
    vstd::seq_lib::lemma_multiset_commutative(a, b);
}

pub proof fn lemma_insert_contains<A>(s: Seq<A>, p: int, x: A)
    requires
        0 <= p <= s.len(),
    ensures
        forall|q: A| #[trigger] s.insert(p, x).contains(q) <==> (s.contains(q) || q == x),
{
    lemma_insert_multiset(s, p, x);
    assert forall|q: A| #[trigger] s.insert(p, x).contains(q) <==> (s.contains(q) || q == x) by {
        assert(s.insert(p, x).contains(q) <==> s.insert(p, x).to_multiset().count(q) > 0);
        assert(s.contains(q) <==> s.to_multiset().count(q) > 0);
    }
}

pub proof fn lemma_push_contains<A>(s: Seq<A>, x: A)
    ensures
        forall|q: A| #[trigger] s.push(x).contains(q) <==> (s.contains(q) || q == x),
{
    assert forall|q: A| #[trigger] s.push(x).contains(q) <==> (s.contains(q) || q == x) by {
        assert(s.push(x).contains(q) <==> s.push(x).to_multiset().count(q) > 0);
        assert(s.contains(q) <==> s.to_multiset().count(q) > 0);
    }
}

fn key_eq<T: CountKey>(a: &T, b: &T) -> (r: bool)
    ensures
        r == (*a == *b),
{
    let r = a.key() == b.key();
    proof {
        if r {
            T::lemma_key_injective(*a, *b);
        }
    }
    r
}

fn lt_entry<T: CountKey>(a: &(T, i32), b: &(T, i32)) -> (r: bool)
    ensures
        r == entry_lt(*a, *b),
{
    let ka = a.0.key();
    let kb = b.0.key();
    ka < kb || (ka == kb && a.1 < b.1)
}

/// The entries of `v` rearranged in entry order.
fn sort_entries<T: CountKey>(v: &Vec<(T, i32)>) -> (r: Vec<(T, i32)>)
    ensures
        entries_sorted(r@),
        r@.to_multiset() =~= v@.to_multiset(),
{
    let mut r: Vec<(T, i32)> = Vec::new();
    let mut i: usize = 0;
    while i < v.len()
        invariant
            i <= v.len(),
            entries_sorted(r@),
            r@.to_multiset() =~= v@.subrange(0, i as int).to_multiset(),
        decreases v.len() - i,
    {
        let x = v[i];
        let mut p: usize = 0;
        while p < r.len() && lt_entry(&r[p], &x)
            invariant
                p <= r.len(),
                forall|j: int| 0 <= j < p ==> entry_lt(#[trigger] r@[j], x),
            decreases r.len() - p,
        {
            p = p + 1;
        }
        let ghost old_r = r@;
        r.insert(p, x);
        proof {
            lemma_insert_multiset(old_r, p as int, x);
            assert(v@.subrange(0, i as int + 1) =~= v@.subrange(0, i as int).push(x));
            assert forall|a: int, b: int| 0 <= a < b < r@.len() implies entry_le(
                #[trigger] r@[a],
                #[trigger] r@[b],
            ) by {
                if b < p {
                } else if a < p && b == p {
                } else if a < p && b > p {
                    assert(entry_lt(old_r[a], x));
                    assert(entry_le(old_r[p as int], old_r[b - 1]));
                } else if a == p {
                    if p < old_r.len() {
                        assert(!entry_lt(old_r[p as int], x));
                        assert(entry_le(old_r[p as int], old_r[b - 1]));
                    }
                } else {
                    assert(entry_le(old_r[a - 1], old_r[b - 1]));
                }
            }
        }
        i = i + 1;
    }
    proof {
        assert(v@.subrange(0, v@.len() as int) =~= v@);
    }
    r
}

/// The count of `k` in entries `s`: that of its first entry, zero if it has none.
pub open spec fn seq_count<T: CountKey>(s: Seq<(T, i32)>, k: T) -> int {
    let i = spec_find(s, k);
    if i >= 0 {
        s[i].1 as int
    } else {
        0
    }
}

/// Entries in strictly increasing key order, none with count zero.
pub open spec fn entries_wf<T: CountKey>(s: Seq<(T, i32)>) -> bool {
    &&& forall|i: int, j: int|
        0 <= i < j < s.len() ==> (#[trigger] s[i]).0.spec_key() < (#[trigger] s[j]).0.spec_key()
    &&& forall|i: int| 0 <= i < s.len() ==> (#[trigger] s[i]).1 != 0
}

/// `r` is what entries `s` become when a press (`press`) or release of `k` is counted.
pub open spec fn seq_adjusted<T: CountKey>(s: Seq<(T, i32)>, k: T, press: bool, r: Seq<(T, i32)>) -> bool {
    let i = spec_find(s, k);
    let d = spec_press_to_count(press);
    if i >= 0 {
        if s[i].1 + d == 0 {
            r == s.remove(i)
        } else {
            r == s.update(i, (s[i].0, (s[i].1 + d) as i32))
        }
    } else {
        entries_sorted(r) && r.to_multiset() == s.push((k, d as i32)).to_multiset()
    }
}

/// No entries, no count.
pub proof fn lemma_count_empty<T: CountKey>(s: Seq<(T, i32)>, k: T)
    requires
        s.len() == 0,
    ensures
        seq_count(s, k) == 0,
{
}

/// The order on entries is a total order.
proof fn lemma_entry_le_total<T: CountKey>()
    ensures
        total_ordering(|a: (T, i32), b: (T, i32)| entry_le(a, b)),
{
    let leq = |a: (T, i32), b: (T, i32)| entry_le(a, b);
    assert forall|x: (T, i32), y: (T, i32)| #[trigger] leq(x, y) && #[trigger] leq(y, x) implies x == y by {
        T::lemma_key_injective(x.0, y.0);
    }
}

/// In entries with distinct keys, the count of a key is that of its entry.
proof fn lemma_count_of_entry<T: CountKey>(s: Seq<(T, i32)>, i: int)
    requires
        0 <= i < s.len(),
        forall|a: int, b: int| 0 <= a < b < s.len() ==> (#[trigger] s[a]).0 != (#[trigger] s[b]).0,
    ensures
        seq_count(s, s[i].0) == s[i].1,
{
    lemma_find(s, s[i].0);
    let f = spec_find(s, s[i].0);
    if f > i {
        assert(s[i].0 == s[f].0);
    }
    if f < i {
        assert(s[f].0 == s[i].0);
    }
}

proof fn lemma_wf_distinct<T: CountKey>(s: Seq<(T, i32)>)
    requires
        entries_wf(s),
    ensures
        forall|a: int, b: int| 0 <= a < b < s.len() ==> (#[trigger] s[a]).0 != (#[trigger] s[b]).0,
{
}

/// The count of `k` after counting a press (`press`) or release of `k` in well formed entries:
/// the result is well formed, the count of `k` moves by one, and no other count changes.
pub proof fn law_adjust_count<T: CountKey>(s: Seq<(T, i32)>, k: T, press: bool, r: Seq<(T, i32)>)
    requires
        entries_wf(s),
        seq_adjusted(s, k, press, r),
        i32::MIN <= seq_count(s, k) + spec_press_to_count(press) <= i32::MAX,
    ensures
        entries_wf(r),
        seq_count(r, k) == seq_count(s, k) + spec_press_to_count(press),
        forall|j: T| j != k ==> #[trigger] seq_count(r, j) == seq_count(s, j),
{
    lemma_find(s, k);
    lemma_wf_distinct(s);
    let i = spec_find(s, k);
    let d = spec_press_to_count(press);
    if i >= 0 {
        if s[i].1 + d == 0 {
            assert(r == s.remove(i));
            assert(entries_wf(r));
            lemma_wf_distinct(r);
            lemma_find(r, k);
            assert forall|j: T| j != k implies #[trigger] seq_count(r, j) == seq_count(s, j) by {
                lemma_find(s, j);
                lemma_find(r, j);
                let f = spec_find(s, j);
                if f >= 0 {
                    if f < i {
                        lemma_count_of_entry(r, f);
                        lemma_count_of_entry(s, f);
                        assert(r[f] == s[f]);
                    } else {
                        assert(f != i);
                        lemma_count_of_entry(r, f - 1);
                        lemma_count_of_entry(s, f);
                        assert(r[f - 1] == s[f]);
                    }
                } else {
                    assert forall|m: int| 0 <= m < r.len() implies (#[trigger] r[m]).0 != j by {
                        if m < i {
                            assert(r[m] == s[m]);
                        } else {
                            assert(r[m] == s[m + 1]);
                        }
                    }
                }
            }
        } else {
            assert forall|m: int| 0 <= m < r.len() implies (#[trigger] r[m]).0 == s[m].0 by {}
            assert(entries_wf(r));
            lemma_wf_distinct(r);
            lemma_count_of_entry(r, i);
            assert forall|j: T| j != k implies #[trigger] seq_count(r, j) == seq_count(s, j) by {
                lemma_find(s, j);
                lemma_find(r, j);
                let f = spec_find(s, j);
                if f >= 0 {
                    lemma_count_of_entry(r, f);
                    lemma_count_of_entry(s, f);
                } else {
                    assert forall|m: int| 0 <= m < r.len() implies (#[trigger] r[m]).0 != j by {
                        assert(r[m].0 == s[m].0);
                    }
                }
            }
        }
    } else {
        let x = (k, d as i32);
        let sp = s.push(x);
        assert(forall|m: int| 0 <= m < s.len() ==> (#[trigger] s[m]).0 != k);
        // the entries of r are those of s and x, each once
        assert forall|q: (T, i32)| #[trigger] r.contains(q) <==> sp.contains(q) by {
            assert(r.contains(q) <==> r.to_multiset().count(q) > 0);
            assert(sp.contains(q) <==> sp.to_multiset().count(q) > 0);
        }
        assert forall|a: int, b: int| 0 <= a < b < sp.len() implies (#[trigger] sp[a]).0 != (#[trigger] sp[b]).0 by {
            if b == s.len() {
                assert(sp[a] == s[a]);
            } else {
                assert(sp[a] == s[a] && sp[b] == s[b]);
            }
        }
        sp.lemma_multiset_has_no_duplicates();
        assert forall|q: (T, i32)| r.to_multiset().contains(q) implies r.to_multiset().count(q) == 1 by {
            assert(sp.to_multiset().count(q) == 1);
        }
        r.lemma_multiset_has_no_duplicates_conv();
        assert forall|a: int, b: int| 0 <= a < b < r.len() implies (#[trigger] r[a]).0.spec_key()
            < (#[trigger] r[b]).0.spec_key() by {
            assert(r.contains(r[a]) && r.contains(r[b]));
            let wa = choose|w: int| 0 <= w < sp.len() && sp[w] == r[a];
            let wb = choose|w: int| 0 <= w < sp.len() && sp[w] == r[b];
            assert(r[a] != r[b]);
            assert(wa != wb);
            if r[a].0.spec_key() == r[b].0.spec_key() {
                T::lemma_key_injective(r[a].0, r[b].0);
                if wa < wb {
                    assert(sp[wa].0 != sp[wb].0);
                } else {
                    assert(sp[wb].0 != sp[wa].0);
                }
            }
            assert(entry_le(r[a], r[b]));
        }
        assert forall|m: int| 0 <= m < r.len() implies (#[trigger] r[m]).1 != 0 by {
            assert(r.contains(r[m]));
            let w = choose|w: int| 0 <= w < sp.len() && sp[w] == r[m];
            if w < s.len() {
                assert(sp[w] == s[w]);
            }
        }
        assert(entries_wf(r));
        lemma_wf_distinct(r);
        assert(sp.contains(x)) by {
            assert(sp[s.len() as int] == x);
        }
        assert(r.contains(x));
        let wx = choose|w: int| 0 <= w < r.len() && r[w] == x;
        lemma_count_of_entry(r, wx);
        assert forall|j: T| j != k implies #[trigger] seq_count(r, j) == seq_count(s, j) by {
            lemma_find(s, j);
            lemma_find(r, j);
            let f = spec_find(s, j);
            if f >= 0 {
                assert(sp[f] == s[f]);
                assert(r.contains(s[f]));
                let w = choose|w: int| 0 <= w < r.len() && r[w] == s[f];
                lemma_count_of_entry(r, w);
                lemma_count_of_entry(s, f);
            } else {
                assert forall|m: int| 0 <= m < r.len() implies (#[trigger] r[m]).0 != j by {
                    assert(r.contains(r[m]));
                    let w = choose|w: int| 0 <= w < sp.len() && sp[w] == r[m];
                    if w < s.len() {
                        assert(sp[w] == s[w]);
                    }
                }
            }
        }
    }
}

/// Counting a press of `k` and then a release of it gives back the entries one started with.
pub proof fn law_press_then_release<T: CountKey>(
    s: Seq<(T, i32)>,
    k: T,
    r1: Seq<(T, i32)>,
    r2: Seq<(T, i32)>,
)
    requires
        entries_wf(s),
        seq_count(s, k) < i32::MAX,
        seq_adjusted(s, k, true, r1),
        seq_adjusted(r1, k, false, r2),
    ensures
        r2 == s,
{
    lemma_find(s, k);
    law_adjust_count(s, k, true, r1);
    lemma_find(r1, k);
    lemma_wf_distinct(s);
    lemma_entry_le_total::<T>();
    let leq = |a: (T, i32), b: (T, i32)| entry_le(a, b);
    let i = spec_find(s, k);
    if i >= 0 {
        if s[i].1 + 1 == 0 {
            // the entry for k was removed; the release puts it back in order
            let x = (k, -1i32);
            assert(s[i] == x);
            assert(r1 == s.remove(i));
            assert(spec_find(r1, k) == -1) by {
                assert forall|m: int| 0 <= m < r1.len() implies (#[trigger] r1[m]).0 != k by {
                    if m < i {
                        assert(r1[m] == s[m]);
                    } else {
                        assert(r1[m] == s[m + 1]);
                    }
                }
            }
            assert(r1.push(x).to_multiset() =~= s.to_multiset()) by {
                assert(s.remove(i).to_multiset() =~= s.to_multiset().remove(s[i]));
            }
            assert(sorted_by(s, leq));
            assert(sorted_by(r2, leq));
            vstd::seq_lib::lemma_sorted_unique(r2, s, leq);
        } else {
            lemma_count_of_entry(r1, i);
            assert(r1[i].0 == k);
            lemma_wf_distinct(r1);
            assert(spec_find(r1, k) == i) by {
                if spec_find(r1, k) < i {
                    assert(r1[spec_find(r1, k)].0 == r1[i].0);
                }
            }
            assert(r2 =~= s);
        }
    } else {
        // k was absent; the press added (k, 1) and the release removes it
        let x = (k, 1i32);
        let j = spec_find(r1, k);
        lemma_wf_distinct(r1);
        assert(seq_count(r1, k) == 1);
        assert(j >= 0);
        assert(r1[j] == x) by {
            T::lemma_key_injective(r1[j].0, k);
        }
        assert(r2 == r1.remove(j));
        assert(r2.to_multiset() =~= s.to_multiset()) by {
            assert(r1.remove(j).to_multiset() =~= r1.to_multiset().remove(r1[j]));
        }
        assert(sorted_by(s, leq));
        assert(sorted_by(r2, leq)) by {
            assert forall|a: int, b: int| 0 <= a < b < r2.len() implies #[trigger] leq(r2[a], r2[b]) by {
                if b < j {
                } else if a < j {
                    assert(r2[b] == r1[b + 1]);
                } else {
                    assert(r2[a] == r1[a + 1] && r2[b] == r1[b + 1]);
                }
            }
        }
        vstd::seq_lib::lemma_sorted_unique(r2, s, leq);
    }
}

/// Counting a release of `k` and then a press of it gives back the entries one started with.
pub proof fn law_release_then_press<T: CountKey>(
    s: Seq<(T, i32)>,
    k: T,
    r1: Seq<(T, i32)>,
    r2: Seq<(T, i32)>,
)
    requires
        entries_wf(s),
        seq_count(s, k) > i32::MIN,
        seq_adjusted(s, k, false, r1),
        seq_adjusted(r1, k, true, r2),
    ensures
        r2 == s,
{
    lemma_find(s, k);
    law_adjust_count(s, k, false, r1);
    lemma_find(r1, k);
    lemma_wf_distinct(s);
    lemma_entry_le_total::<T>();
    let leq = |a: (T, i32), b: (T, i32)| entry_le(a, b);
    let i = spec_find(s, k);
    if i >= 0 {
        if s[i].1 - 1 == 0 {
            // the entry for k was removed; the press puts it back in order
            let x = (k, 1i32);
            assert(s[i] == x);
            assert(r1 == s.remove(i));
            assert(spec_find(r1, k) == -1) by {
                assert forall|m: int| 0 <= m < r1.len() implies (#[trigger] r1[m]).0 != k by {
                    if m < i {
                        assert(r1[m] == s[m]);
                    } else {
                        assert(r1[m] == s[m + 1]);
                    }
                }
            }
            assert(r1.push(x).to_multiset() =~= s.to_multiset()) by {
                assert(s.remove(i).to_multiset() =~= s.to_multiset().remove(s[i]));
            }
            assert(sorted_by(s, leq));
            assert(sorted_by(r2, leq));
            vstd::seq_lib::lemma_sorted_unique(r2, s, leq);
        } else {
            lemma_count_of_entry(r1, i);
            assert(r1[i].0 == k);
            lemma_wf_distinct(r1);
            assert(spec_find(r1, k) == i) by {
                if spec_find(r1, k) < i {
                    assert(r1[spec_find(r1, k)].0 == r1[i].0);
                }
            }
            assert(r2 =~= s);
        }
    } else {
        // k was absent; the release added (k, -1) and the press removes it
        let x = (k, -1i32);
        let j = spec_find(r1, k);
        lemma_wf_distinct(r1);
        assert(seq_count(r1, k) == -1);
        assert(j >= 0);
        assert(r1[j] == x) by {
            T::lemma_key_injective(r1[j].0, k);
        }
        assert(r2 == r1.remove(j));
        assert(r2.to_multiset() =~= s.to_multiset()) by {
            assert(r1.remove(j).to_multiset() =~= r1.to_multiset().remove(r1[j]));
        }
        assert(sorted_by(s, leq));
        assert(sorted_by(r2, leq)) by {
            assert forall|a: int, b: int| 0 <= a < b < r2.len() implies #[trigger] leq(r2[a], r2[b]) by {
                if b < j {
                } else if a < j {
                    assert(r2[b] == r1[b + 1]);
                } else {
                    assert(r2[a] == r1[a + 1] && r2[b] == r1[b + 1]);
                }
            }
        }
        vstd::seq_lib::lemma_sorted_unique(r2, s, leq);
    }
}

/// What `peek_adjust` reports for `k` is the count that `adjust_count` leaves `k` with, on
/// a well-formed map; the other counts stay as they were.
pub proof fn law_peek_is_adjust<T: CountKey>(m: CountMap<T>, k: T, press: bool, after: CountMap<T>)
    requires
        m.wf(),
        m.adjusted(k, press, after.entries()),
        i32::MIN <= m.count(k) + spec_press_to_count(press) <= i32::MAX,
    ensures
        after.count(k) == m.count(k) + spec_press_to_count(press),
        after.wf(),
        forall|j: T| j != k ==> #[trigger] after.count(j) == m.count(j),
{
    law_adjust_count(m.entries(), k, press, after.entries());
}

/// In a well-formed map the number of entries (what `num_pressed` reports) is the number
/// of keys whose count is not zero.
pub proof fn law_entries_are_nonzero_counts<T: CountKey>(m: CountMap<T>)
    requires
        m.wf(),
    ensures
        m.entries().len() == Set::new(|k: T| m.count(k) != 0).len(),
        Set::new(|k: T| m.count(k) != 0).finite(),
{
    let s = m.entries();
    let keys = s.map_values(|e: (T, i32)| e.0);
    lemma_wf_distinct(s);
    assert(keys.no_duplicates()) by {
        assert forall|a: int, b: int| 0 <= a < keys.len() && 0 <= b < keys.len() && a != b
            implies keys[a] != keys[b] by {
            if a < b {
                assert(s[a].0 != s[b].0);
            } else {
                assert(s[b].0 != s[a].0);
            }
        }
    }
    assert(keys.to_set() =~= Set::new(|k: T| m.count(k) != 0)) by {
        assert forall|k: T| keys.to_set().contains(k) implies m.count(k) != 0 by {
            let i = choose|i: int| 0 <= i < keys.len() && keys[i] == k;
            lemma_count_of_entry(s, i);
        }
        assert forall|k: T| m.count(k) != 0 implies keys.to_set().contains(k) by {
            lemma_find(s, k);
            let f = spec_find(s, k);
            assert(keys[f] == k);
        }
    }
    keys.unique_seq_to_set();
    vstd::seq_lib::seq_to_set_is_finite(keys);
}

/// Counts per key; keys with count zero are absent.
#[derive(Debug, Default, Ord, PartialOrd, Eq, PartialEq, Hash)]
pub struct CountMap<T: CountKey> {
    c: Vec<(T, i32)>,
}

impl<T: CountKey> CountMap<T> {
    /// The entries, in the order they are held.
    pub closed spec fn entries(self) -> Seq<(T, i32)> {
        self.c@
    }

    /// The count of `k`: that of its first entry, zero if it has none.
    pub open spec fn count(self, k: T) -> int {
        seq_count(self.entries(), k)
    }

    /// Well formed: entries in strictly increasing key order, no zero count.
    pub open spec fn wf(self) -> bool {
        entries_wf(self.entries())
    }

    /// The entries after `adjust_count(k, press)`.
    pub open spec fn adjusted(self, k: T, press: bool, r: Seq<(T, i32)>) -> bool {
        seq_adjusted(self.entries(), k, press, r)
    }

    pub fn new() -> (r: Self)
        ensures
            r.entries() == Seq::<(T, i32)>::empty(),
            r.wf(),
    {
        CountMap { c: Vec::new() }
    }

    /// The map holding the distinct entries of `c` with a positive count, in entry order.
    pub fn from_vec(c: Vec<(T, i32)>) -> (r: Self)
        ensures
            from_vec_result(c@, r.entries()),
    {
        let mut r: Vec<(T, i32)> = Vec::new();
        let mut i: usize = 0;
        while i < c.len()
            invariant
                i <= c.len(),
                from_vec_result(c@.subrange(0, i as int), r@),
            decreases c.len() - i,
        {
            let x = c[i];
            let ghost old_r = r@;
            if x.1 > 0 {
                let mut p: usize = 0;
                while p < r.len() && lt_entry(&r[p], &x)
                    invariant
                        p <= r.len(),
                        forall|j: int| 0 <= j < p ==> entry_lt(#[trigger] r@[j], x),
                    decreases r.len() - p,
                {
                    p = p + 1;
                }
                let dup = p < r.len() && key_eq(&r[p].0, &x.0) && r[p].1 == x.1;
                if !dup {
                    r.insert(p, x);
                    proof {
                        if p < old_r.len() {
                            assert(!entry_lt(old_r[p as int], x));
                            if old_r[p as int].0.spec_key() == x.0.spec_key() && old_r[p as int].1 == x.1 {
                                T::lemma_key_injective(old_r[p as int].0, x.0);
                            }
                            assert(entry_lt(x, old_r[p as int]));
                        }
                        assert forall|a: int, b: int| 0 <= a < b < r@.len() implies entry_lt(
                            #[trigger] r@[a],
                            #[trigger] r@[b],
                        ) by {
                            if b < p {
                                assert(r@[a] == old_r[a] && r@[b] == old_r[b]);
                            } else if b == p {
                                assert(r@[a] == old_r[a]);
                                assert(entry_lt(old_r[a], x));
                            } else if a < p {
                                assert(r@[a] == old_r[a] && r@[b] == old_r[b - 1]);
                                assert(entry_lt(old_r[a], old_r[b - 1]));
                            } else if a == p {
                                assert(r@[b] == old_r[b - 1]);
                                if b - 1 > p {
                                    assert(entry_lt(old_r[p as int], old_r[b - 1]));
                                }
                            } else {
                                assert(r@[a] == old_r[a - 1] && r@[b] == old_r[b - 1]);
                                assert(entry_lt(old_r[a - 1], old_r[b - 1]));
                            }
                        }
                        lemma_insert_contains(old_r, p as int, x);
                    }
                } else {
                    proof {
                        T::lemma_key_injective(old_r[p as int].0, x.0);
                        assert(old_r[p as int] == x);
                        assert(old_r.contains(x));
                    }
                }
                proof {
                    let s0 = c@.subrange(0, i as int);
                    let s = c@.subrange(0, i as int + 1);
                    assert(s =~= s0.push(x));
                    lemma_push_contains(s0, x);
                    assert(forall|q: (T, i32)| #[trigger] r@.contains(q) <==> (old_r.contains(q) || q == x));
                }
            } else {
                proof {
                    let s0 = c@.subrange(0, i as int);
                    let s = c@.subrange(0, i as int + 1);
                    assert(s =~= s0.push(x));
                    lemma_push_contains(s0, x);
                }
            }
            i = i + 1;
        }
        proof {
            assert(c@.subrange(0, c@.len() as int) =~= c@);
        }
        CountMap { c: r }
    }

    /// The count of `k`.
    pub fn get_count(&self, k: T) -> (r: i32)
        ensures
            r == self.count(k),
    {
        proof {
            lemma_find(self.c@, k);
        }
        let mut i: usize = 0;
        while i < self.c.len()
            invariant
                i <= self.c.len(),
                forall|j: int| 0 <= j < i ==> (#[trigger] self.c@[j]).0 != k,
            decreases self.c.len() - i,
        {
            if key_eq(&self.c[i].0, &k) {
                proof {
                    lemma_find(self.c@, k);
                    let f = spec_find(self.c@, k);
                    assert(f >= 0);
                    if f < i {
                        assert(self.c@[f].0 != k);
                    }
                    if f > i {
                        assert(self.c@[i as int].0 != k);
                    }
                }
                return self.c[i].1;
            }
            i = i + 1;
        }
        proof {
            lemma_find(self.c@, k);
        }
        0
    }

    /// The number of entries.
    pub fn num_pressed(&self) -> (r: usize)
        ensures
            r == self.entries().len(),
    {
        self.c.len()
    }

    /// The count `k` would have after a press (`press`) or a release of it.
    pub fn peek_adjust(&self, k: T, press: bool) -> (r: i32)
        requires
            i32::MIN <= self.count(k) + spec_press_to_count(press) <= i32::MAX,
        ensures
            r == self.count(k) + spec_press_to_count(press),
    {
        let count = press_to_count(press);
        self.get_count(k) + count
    }

    /// Counts a press (`press`) or a release of `k` and returns the new count of `k`.
    pub fn adjust_count(&mut self, k: T, press: bool) -> (r: i32)
        requires
            i32::MIN <= old(self).count(k) + spec_press_to_count(press) <= i32::MAX,
        ensures
            old(self).adjusted(k, press, final(self).entries()),
            r == old(self).count(k) + spec_press_to_count(press),
            old(self).wf() ==> final(self).wf() && final(self).count(k) == r
                && forall|j: T| j != k ==> #[trigger] final(self).count(j) == old(self).count(j),
    {
        let ghost s0 = self.c@;
        proof {
            lemma_find(self.c@, k);
        }
        let count = press_to_count(press);
        let mut i: usize = 0;
        while i < self.c.len()
            invariant
                i <= self.c.len(),
                self.c@ == old(self).c@,
                s0 == old(self).c@,
                forall|j: int| 0 <= j < i ==> (#[trigger] self.c@[j]).0 != k,
                i32::MIN <= old(self).count(k) + spec_press_to_count(press) <= i32::MAX,
                count == spec_press_to_count(press),
            decreases self.c.len() - i,
        {
            if key_eq(&self.c[i].0, &k) {
                proof {
                    lemma_find(self.c@, k);
                    let f = spec_find(self.c@, k);
                    assert(f >= 0);
                    if f < i {
                        assert(self.c@[f].0 != k);
                    }
                    if f > i {
                        assert(self.c@[i as int].0 != k);
                    }
                    assert(f == i);
                }
                let v = self.c[i].1 + count;
                if v == 0 {
                    self.c.remove(i);
                    proof { if entries_wf(s0) { law_adjust_count(s0, k, press, self.c@); } }
                    return 0;
                } else {
                    let e = (self.c[i].0, v);
                    self.c.set(i, e);
                    proof { if entries_wf(s0) { law_adjust_count(s0, k, press, self.c@); } }
                    return v;
                }
            }
            i = i + 1;
        }
        proof {
            lemma_find(self.c@, k);
        }
        let mut c = Vec::new();
        std::mem::swap(&mut c, &mut self.c);
        c.push((k, count));
        self.c = sort_entries(&c);
        proof { if entries_wf(s0) { law_adjust_count(s0, k, press, self.c@); } }
        count
    }

    /// Whether every key has at least the count it has in `o`.
    pub fn is_superset(&self, o: &CountMap<T>) -> (r: bool)
        ensures
            r == forall|i: int|
                0 <= i < o.entries().len() ==> self.count((#[trigger] o.entries()[i]).0)
                    >= o.entries()[i].1,
    {
        let mut i: usize = 0;
        while i < o.c.len()
            invariant
                i <= o.c.len(),
                forall|j: int|
                    0 <= j < i ==> self.count((#[trigger] o.c@[j]).0) >= o.c@[j].1,
            decreases o.c.len() - i,
        {
            let (k, v) = o.c[i];
            if self.get_count(k) < v {
                proof {
                    assert(self.count(o.entries()[i as int].0) < o.entries()[i as int].1);
                }
                return false;
            }
            i = i + 1;
        }
        true
    }

    /// Whether `o` holds the same entries in the same order.
    pub fn same_entries(&self, o: &CountMap<T>) -> (r: bool)
        ensures
            r == (self.entries() == o.entries()),
    {
        if self.c.len() != o.c.len() {
            return false;
        }
        let mut i: usize = 0;
        while i < self.c.len()
            invariant
                i <= self.c.len(),
                self.c.len() == o.c.len(),
                forall|j: int| 0 <= j < i ==> self.c@[j] == o.c@[j],
            decreases self.c.len() - i,
        {
            if !(key_eq(&self.c[i].0, &o.c[i].0) && self.c[i].1 == o.c[i].1) {
                return false;
            }
            i = i + 1;
        }
        proof {
            assert(self.c@ =~= o.c@);
        }
        true
    }

    /// The entries, in the order they are held.
    pub fn iter(&self) -> (r: std::slice::Iter<'_, (T, i32)>)
        ensures
            r.remaining() == self.entries().as_ref(),
    {
        self.c.iter()
    }
}

impl<T: CountKey> Clone for CountMap<T> {
    fn clone(&self) -> (r: Self)
        ensures
            r.entries() == self.entries(),
    {
        let mut c: Vec<(T, i32)> = Vec::new();
        let mut i: usize = 0;
        while i < self.c.len()
            invariant
                i <= self.c.len(),
                c@ == self.c@.take(i as int),
            decreases self.c.len() - i,
        {
            c.push(self.c[i]);
            proof {
                assert(self.c@.take(i as int + 1) =~= self.c@.take(i as int).push(self.c@[i as int]));
            }
            i = i + 1;
        }
        proof {
            assert(self.c@.take(self.c@.len() as int) =~= self.c@);
        }
        CountMap { c }
    }
}

/// The entries of `s` whose key satisfies `keep`, in order.
fn filter_keys(s: &Vec<(Kc, i32)>, mods: bool) -> (r: Vec<(Kc, i32)>)
    ensures
        r@ == s@.filter(|p: (Kc, i32)| spec_is_mod(p.0) == mods),
{
    let ghost pred = |p: (Kc, i32)| spec_is_mod(p.0) == mods;
    let mut r: Vec<(Kc, i32)> = Vec::new();
    let mut i: usize = 0;
    while i < s.len()
        invariant
            i <= s.len(),
            pred == (|p: (Kc, i32)| spec_is_mod(p.0) == mods),
            r@ == s@.subrange(0, i as int).filter(pred),
        decreases s.len() - i,
    {
        let x = s[i];
        proof {
            assert(s@.subrange(0, i as int + 1) =~= s@.subrange(0, i as int).push(x));
            s@.subrange(0, i as int).lemma_filter_push(x, pred);
        }
        if is_mod(x.0) == mods {
            r.push(x);
        }
        i = i + 1;
    }
    proof {
        assert(s@.subrange(0, s@.len() as int) =~= s@);
    }
    r
}

impl CountMap<Kc> {
    /// The counts of the modifier keys.
    pub fn mods(&self) -> (r: CountMap<Kc>)
        ensures
            from_vec_result(self.entries().filter(|p: (Kc, i32)| spec_is_mod(p.0) == true), r.entries()),
    {
        CountMap::from_vec(filter_keys(&self.c, true))
    }

    /// The counts of the keys that are not modifiers.
    pub fn regular(&self) -> (r: CountMap<Kc>)
        ensures
            from_vec_result(self.entries().filter(|p: (Kc, i32)| spec_is_mod(p.0) == false), r.entries()),
    {
        CountMap::from_vec(filter_keys(&self.c, false))
    }
}

} // verus!
