use crate::models::layer::{layer_normalised, Layer, Layout};
use crate::constants::{MAX_MODS_PER_LAYER, MAX_SAME};
use crate::types::KcSet;
use vstd::prelude::*;

verus! {

/// The first `crosspoint` values of `a` followed by the values of `b` from `crosspoint` on.
pub fn crossover_vec<T: Clone>(a: &[T], b: &[T], crosspoint: usize) -> (r: Vec<T>)
    requires
        crosspoint <= a@.len(),
        crosspoint <= b@.len(),
    ensures
        r@.len() == b@.len(),
        forall|i: int| 0 <= i < crosspoint ==> cloned::<T>(a@[i], #[trigger] r@[i]),
        forall|i: int| crosspoint <= i < b@.len() ==> cloned::<T>(b@[i], #[trigger] r@[i]),
{
    let mut v: Vec<T> = Vec::new();
    let mut i: usize = 0;
    while i < b.len()
        invariant
            crosspoint <= a@.len(),
            crosspoint <= b@.len(),
            i <= b@.len(),
            v@.len() == i,
            forall|j: int| 0 <= j < i && j < crosspoint ==> cloned::<T>(a@[j], #[trigger] v@[j]),
            forall|j: int| crosspoint <= j < i ==> cloned::<T>(b@[j], #[trigger] v@[j]),
        decreases b.len() - i,
    {
        if i < crosspoint {
            v.push(a[i].clone());
        } else {
            v.push(b[i].clone());
        }
        i = i + 1;
    }
    v
}

/// The key sets of each layer of `layers`.
pub open spec fn layers_view(layers: Seq<Layer>) -> Seq<Seq<KcSet>> {
    layers.map_values(|l: Layer| l.keys@)
}

/// A change that makes a child layout from two parents.
#[derive(Debug, Clone, Copy, PartialEq, Eq)]
pub enum GenomeOp {
    /// The first parent's layers before `crosspoint`, the second's from there on.
    CrossLayers { crosspoint: usize },
    /// The first parent, with layer `layer` made of its keys before `key` and the second
    /// parent's keys of that layer from there on.
    CrossKeys { layer: usize, key: usize },
    /// The first parent, with key `key` of layer `layer` set to `kcset`.
    MutateKey { layer: usize, key: usize, kcset: KcSet },
    /// The first parent, with layers `a` and `b` swapped.
    SwapLayers { a: usize, b: usize },
    /// The first parent, with key `k1` of layer `l1` and key `k2` of layer `l2` swapped.
    SwapKeys { l1: usize, k1: usize, l2: usize, k2: usize },
}

/// The indices of `op` exist in the parents.
pub open spec fn op_applies(p1: Seq<Seq<KcSet>>, p2: Seq<Seq<KcSet>>, op: GenomeOp) -> bool {
    match op {
        GenomeOp::CrossLayers { crosspoint } => crosspoint <= p1.len() && crosspoint <= p2.len(),
        GenomeOp::CrossKeys { layer, key } => layer < p1.len() && layer < p2.len() && key
            <= p1[layer as int].len() && key <= p2[layer as int].len(),
        GenomeOp::MutateKey { layer, key, .. } => layer < p1.len() && key < p1[layer as int].len(),
        GenomeOp::SwapLayers { a, b } => a < p1.len() && b < p1.len(),
        GenomeOp::SwapKeys { l1, k1, l2, k2 } => l1 < p1.len() && k1 < p1[l1 as int].len() && l2
            < p1.len() && k2 < p1[l2 as int].len(),
    }
}

/// The key sets of the child that `op` makes from parents `p1` and `p2`, before it is
/// normalised.
pub open spec fn spec_apply_op(p1: Seq<Seq<KcSet>>, p2: Seq<Seq<KcSet>>, op: GenomeOp) -> Seq<
    Seq<KcSet>,
> {
    match op {
        GenomeOp::CrossLayers { crosspoint } => p1.take(crosspoint as int) + p2.skip(
            crosspoint as int,
        ),
        GenomeOp::CrossKeys { layer, key } => p1.update(
            layer as int,
            p1[layer as int].take(key as int) + p2[layer as int].skip(key as int),
        ),
        GenomeOp::MutateKey { layer, key, kcset } => p1.update(
            layer as int,
            p1[layer as int].update(key as int, kcset),
        ),
        GenomeOp::SwapLayers { a, b } => p1.update(a as int, p1[b as int]).update(
            b as int,
            p1[a as int],
        ),
        GenomeOp::SwapKeys { l1, k1, l2, k2 } => {
            let x = p1[l1 as int][k1 as int];
            let y = p1[l2 as int][k2 as int];
            let q = p1.update(l1 as int, p1[l1 as int].update(k1 as int, y));
            q.update(l2 as int, q[l2 as int].update(k2 as int, x))
        },
    }
}

/// A copy of `l`.
fn copy_layer(l: &Layer) -> (r: Layer)
    ensures
        r.keys@ == l.keys@,
{
    Layer::new(l.keys.as_slice())
}

/// Copies of `layers[from..to]`.
fn copy_layers(layers: &Vec<Layer>, from: usize, to: usize) -> (r: Vec<Layer>)
    requires
        from <= to <= layers@.len(),
    ensures
        layers_view(r@) == layers_view(layers@).subrange(from as int, to as int),
{
    let mut v: Vec<Layer> = Vec::new();
    let mut i: usize = from;
    while i < to
        invariant
            from <= i <= to,
            to <= layers@.len(),
            layers_view(v@) == layers_view(layers@).subrange(from as int, i as int),
        decreases to - i,
    {
        let ghost v0 = v@;
        v.push(copy_layer(&layers[i]));
        proof {
            assert(layers_view(v@) =~= layers_view(v0).push(layers@[i as int].keys@));
            assert(layers_view(layers@).subrange(from as int, i + 1) =~= layers_view(
                layers@,
            ).subrange(from as int, i as int).push(layers@[i as int].keys@));
        }
        i = i + 1;
    }
    v
}

/// `layers` with the key sets of layer `i` replaced by `keys`.
fn replace_layer(layers: &mut Vec<Layer>, i: usize, keys: Vec<KcSet>)
    requires
        i < old(layers)@.len(),
    ensures
        final(layers)@.len() == old(layers)@.len(),
        layers_view(final(layers)@) == layers_view(old(layers)@).update(i as int, keys@),
{
    let ghost l0 = layers@;
    layers.set(i, Layer { keys });
    proof {
        assert(layers_view(layers@) =~= layers_view(l0).update(i as int, keys@));
    }
}

/// The child that `op` makes from parents `p1` and `p2`, normalised.
pub fn apply_genome_op(p1: &Layout, p2: &Layout, op: GenomeOp) -> (r: Layout)
    requires
        op_applies(layers_view(p1.layers@), layers_view(p2.layers@), op),
        forall|i: int| 0 <= i < p1.layers@.len() ==> #[trigger] p1.layers@[i].keys@.len() <= i32::MAX,
        forall|i: int| 0 <= i < p2.layers@.len() ==> #[trigger] p2.layers@[i].keys@.len() <= i32::MAX,
    ensures
        ({
            let child = spec_apply_op(layers_view(p1.layers@), layers_view(p2.layers@), op);
            &&& r.layers@.len() == child.len()
            &&& forall|i: int|
                0 <= i < child.len() ==> layer_normalised(
                    child[i],
                    #[trigger] r.layers@[i].keys@,
                    MAX_MODS_PER_LAYER as int,
                    MAX_SAME as int,
                )
        }),
{
    let ghost v1 = layers_view(p1.layers@);
    let ghost v2 = layers_view(p2.layers@);
    let n1 = p1.layers.len();
    let mut layers: Vec<Layer>;
    match op {
        GenomeOp::CrossLayers { crosspoint } => {
            layers = copy_layers(&p1.layers, 0, crosspoint);
            let mut rest = copy_layers(&p2.layers, crosspoint, p2.layers.len());
            let ghost a = layers@;
            let ghost b = rest@;
            layers.append(&mut rest);
            proof {
                assert(layers_view(layers@) =~= layers_view(a) + layers_view(b));
                assert(v1.take(crosspoint as int) =~= v1.subrange(0, crosspoint as int));
                assert(v2.skip(crosspoint as int) =~= v2.subrange(crosspoint as int, v2.len() as int));
            }
        },
        GenomeOp::CrossKeys { layer, key } => {
            layers = copy_layers(&p1.layers, 0, n1);
            assert(layers_view(layers@).len() == layers@.len());
            let keys = crate::genome::crossover_keys(
                p1.layers[layer].keys.as_slice(),
                p2.layers[layer].keys.as_slice(),
                key,
            );
            replace_layer(&mut layers, layer, keys);
            proof {
                assert(v1.subrange(0, n1 as int) =~= v1);
            }
        },
        GenomeOp::MutateKey { layer, key, kcset } => {
            layers = copy_layers(&p1.layers, 0, n1);
            assert(layers_view(layers@).len() == layers@.len());
            let mut keys = p1.layers[layer].keys.clone();
            keys.set(key, kcset);
            replace_layer(&mut layers, layer, keys);
            proof {
                assert(v1.subrange(0, n1 as int) =~= v1);
            }
        },
        GenomeOp::SwapLayers { a, b } => {
            layers = copy_layers(&p1.layers, 0, n1);
            assert(layers_view(layers@).len() == layers@.len());
            let ka = p1.layers[a].keys.clone();
            let kb = p1.layers[b].keys.clone();
            replace_layer(&mut layers, a, kb);
            replace_layer(&mut layers, b, ka);
            proof {
                assert(v1.subrange(0, n1 as int) =~= v1);
            }
        },
        GenomeOp::SwapKeys { l1, k1, l2, k2 } => {
            layers = copy_layers(&p1.layers, 0, n1);
            assert(layers_view(layers@).len() == layers@.len());
            let x = p1.layers[l1].keys[k1];
            let y = p1.layers[l2].keys[k2];
            let mut keys1 = p1.layers[l1].keys.clone();
            keys1.set(k1, y);
            replace_layer(&mut layers, l1, keys1);
            assert(layers@[l2 as int].keys@ == layers_view(layers@)[l2 as int]);
            let mut keys2 = layers[l2].keys.clone();
            keys2.set(k2, x);
            replace_layer(&mut layers, l2, keys2);
            proof {
                assert(v1.subrange(0, n1 as int) =~= v1);
            }
        },
    }
    let ghost child = layers_view(layers@);
    proof {
        assert(child =~= spec_apply_op(v1, v2, op));
        assert forall|i: int| 0 <= i < layers@.len() implies #[trigger] layers@[i].keys@.len()
            <= i32::MAX by {
            assert(layers@[i].keys@ == child[i]);
        }
    }
    let mut l = Layout { layers };
    l.normalise();
    proof {
        assert forall|i: int| 0 <= i < child.len() implies layer_normalised(
            child[i],
            #[trigger] l.layers@[i].keys@,
            MAX_MODS_PER_LAYER as int,
            MAX_SAME as int,
        ) by {
            assert(child[i] == layers@[i].keys@);
        }
    }
    l
}

/// The first `key` key sets of `a` followed by those of `b` from `key` on.
fn crossover_keys(a: &[KcSet], b: &[KcSet], key: usize) -> (r: Vec<KcSet>)
    requires
        key <= a@.len(),
        key <= b@.len(),
    ensures
        r@ == a@.take(key as int) + b@.skip(key as int),
{
    let r = crossover_vec(a, b, key);
    proof {
        assert(r@ =~= a@.take(key as int) + b@.skip(key as int));
    }
    r
}

/// The number of positions below `n` at which `a` and `b` differ.
pub open spec fn differing_keys(a: Seq<KcSet>, b: Seq<KcSet>, n: int) -> int
    decreases n,
{
    if n <= 0 {
        0
    } else {
        differing_keys(a, b, n - 1) + if a[n - 1] != b[n - 1] {
            1int
        } else {
            0int
        }
    }
}

/// The differing keys of the first `n` layers, each layer compared over the keys of `p1`.
pub open spec fn layers_distance(p1: Seq<Seq<KcSet>>, p2: Seq<Seq<KcSet>>, n: int) -> int
    decreases n,
{
    if n <= 0 {
        0
    } else {
        layers_distance(p1, p2, n - 1) + differing_keys(p1[n - 1], p2[n - 1], p1[n - 1].len() as int)
    }
}

/// The number of keys in the first `n` layers of `p`.
pub open spec fn keys_upto(p: Seq<Seq<KcSet>>, n: int) -> int
    decreases n,
{
    if n <= 0 {
        0
    } else {
        keys_upto(p, n - 1) + p[n - 1].len()
    }
}

proof fn lemma_differing_keys_bound(a: Seq<KcSet>, b: Seq<KcSet>, n: int)
    requires
        0 <= n,
    ensures
        0 <= differing_keys(a, b, n) <= n,
    decreases n,
{
    if n > 0 {
        lemma_differing_keys_bound(a, b, n - 1);
    }
}

proof fn lemma_layers_distance_bound(p1: Seq<Seq<KcSet>>, p2: Seq<Seq<KcSet>>, n: int)
    requires
        0 <= n,
    ensures
        0 <= layers_distance(p1, p2, n) <= keys_upto(p1, n),
        0 <= keys_upto(p1, n),
    decreases n,
{
    if n > 0 {
        lemma_layers_distance_bound(p1, p2, n - 1);
        lemma_differing_keys_bound(p1[n - 1], p2[n - 1], p1[n - 1].len() as int);
    }
}

/// How far apart two layered layouts are: each layer one has and the other lacks counts
/// as `num_physical` differences, and each shared layer counts the keys in which they
/// differ.
pub fn genome_distance(p1: &Layout, p2: &Layout, num_physical: usize) -> (r: u64)
    requires
        forall|i: int|
            0 <= i < p1.layers@.len() && i < p2.layers@.len() ==> #[trigger] p1.layers@[i].keys@.len()
                <= p2.layers@[i].keys@.len(),
        ({
            let lmin = if p1.layers@.len() < p2.layers@.len() { p1.layers@.len() } else { p2.layers@.len() };
            let lmax = if p1.layers@.len() < p2.layers@.len() { p2.layers@.len() } else { p1.layers@.len() };
            (lmax - lmin) * num_physical + keys_upto(layers_view(p1.layers@), lmin as int) <= u64::MAX
        }),
    ensures
        ({
            let lmin = if p1.layers@.len() < p2.layers@.len() { p1.layers@.len() } else { p2.layers@.len() };
            let lmax = if p1.layers@.len() < p2.layers@.len() { p2.layers@.len() } else { p1.layers@.len() };
            r == (lmax - lmin) * num_physical + layers_distance(
                layers_view(p1.layers@),
                layers_view(p2.layers@),
                lmin as int,
            )
        }),
{
    let ghost v1 = layers_view(p1.layers@);
    let ghost v2 = layers_view(p2.layers@);
    let n1 = p1.layers.len();
    let n2 = p2.layers.len();
    let layer_min = if n1 < n2 {
        n1
    } else {
        n2
    };
    let layer_max = if n1 < n2 {
        n2
    } else {
        n1
    };
    proof {
        lemma_layers_distance_bound(v1, v2, layer_min as int);
        assert(0 <= (layer_max - layer_min) * num_physical) by (nonlinear_arith)
            requires
                layer_min <= layer_max,
        ;
    }
    let extra = (layer_max - layer_min) as u64 * num_physical as u64;
    let mut dist: u64 = extra;
    let mut i: usize = 0;
    while i < layer_min
        invariant
            i <= layer_min,
            layer_min <= p1.layers@.len(),
            layer_min <= p2.layers@.len(),
            v1 == layers_view(p1.layers@),
            v2 == layers_view(p2.layers@),
            forall|i: int|
                0 <= i < p1.layers@.len() && i < p2.layers@.len() ==> #[trigger] p1.layers@[i].keys@.len()
                    <= p2.layers@[i].keys@.len(),
            extra + keys_upto(v1, layer_min as int) <= u64::MAX,
            dist == extra + layers_distance(v1, v2, i as int),
        decreases layer_min - i,
    {
        let a = &p1.layers[i].keys;
        let b = &p2.layers[i].keys;
        proof {
            lemma_layers_distance_bound(v1, v2, i as int);
            lemma_keys_upto_mono(v1, i as int + 1, layer_min as int);
            assert(v1[i as int] == a@);
            assert(v2[i as int] == b@);
        }
        let mut j: usize = 0;
        while j < a.len()
            invariant
                j <= a.len(),
                a.len() <= b.len(),
                dist == extra + layers_distance(v1, v2, i as int) + differing_keys(a@, b@, j as int),
                extra + layers_distance(v1, v2, i as int) + a.len() <= u64::MAX,
            decreases a.len() - j,
        {
            proof {
                lemma_differing_keys_bound(a@, b@, j as int);
            }
            if a[j] != b[j] {
                dist = dist + 1;
            }
            j = j + 1;
        }
        i = i + 1;
    }
    dist
}

proof fn lemma_keys_upto_mono(p: Seq<Seq<KcSet>>, m: int, n: int)
    requires
        0 <= m <= n,
    ensures
        keys_upto(p, m) <= keys_upto(p, n),
    decreases n,
{
    if m < n {
        lemma_keys_upto_mono(p, m, n - 1);
    }
}

/// Crossing layers at `cp`: the child has the second parent's number of layers, the first
/// parent's layers before `cp` and the second parent's from `cp` on.
pub proof fn law_cross_layers(p1: Seq<Seq<KcSet>>, p2: Seq<Seq<KcSet>>, cp: usize)
    requires
        op_applies(p1, p2, GenomeOp::CrossLayers { crosspoint: cp }),
    ensures
        ({
            let child = spec_apply_op(p1, p2, GenomeOp::CrossLayers { crosspoint: cp });
            &&& child.len() == p2.len()
            &&& forall|i: int| 0 <= i < cp ==> #[trigger] child[i] == p1[i]
            &&& forall|i: int| cp <= i < p2.len() ==> #[trigger] child[i] == p2[i]
        }),
{
}

/// Crossing the keys of layer `layer` at `key`: every other layer is the first parent's; that
/// layer has the second parent's length, the first parent's keys before `key` and the second
/// parent's from `key` on.
pub proof fn law_cross_keys(p1: Seq<Seq<KcSet>>, p2: Seq<Seq<KcSet>>, layer: usize, key: usize)
    requires
        op_applies(p1, p2, GenomeOp::CrossKeys { layer, key }),
    ensures
        ({
            let child = spec_apply_op(p1, p2, GenomeOp::CrossKeys { layer, key });
            &&& child.len() == p1.len()
            &&& forall|i: int| 0 <= i < p1.len() && i != layer ==> #[trigger] child[i] == p1[i]
            &&& child[layer as int].len() == p2[layer as int].len()
            &&& forall|k: int| 0 <= k < key ==> #[trigger] child[layer as int][k] == p1[layer as int][k]
            &&& forall|k: int| key <= k < p2[layer as int].len() ==> #[trigger] child[layer as int][k]
                == p2[layer as int][k]
        }),
{
}

/// Mutating key `key` of layer `layer` to `kcset`: that key is `kcset`, and every other key
/// of every layer is the first parent's.
pub proof fn law_mutate_key(p1: Seq<Seq<KcSet>>, p2: Seq<Seq<KcSet>>, layer: usize, key: usize, kcset: KcSet)
    requires
        op_applies(p1, p2, GenomeOp::MutateKey { layer, key, kcset }),
    ensures
        ({
            let child = spec_apply_op(p1, p2, GenomeOp::MutateKey { layer, key, kcset });
            &&& child.len() == p1.len()
            &&& forall|i: int| 0 <= i < p1.len() ==> (#[trigger] child[i]).len() == p1[i].len()
            &&& child[layer as int][key as int] == kcset
            &&& forall|i: int, k: int|
                0 <= i < p1.len() && 0 <= k < p1[i].len() && (i != layer || k != key) ==> #[trigger] child[i][k]
                    == p1[i][k]
        }),
{
}

/// Swapping layers `a` and `b`: layer `a` of the child is the first parent's layer `b`, layer
/// `b` is its layer `a`, the other layers stay, and the child has the same layers as the
/// first parent, as a multiset.
pub proof fn law_swap_layers(p1: Seq<Seq<KcSet>>, p2: Seq<Seq<KcSet>>, a: usize, b: usize)
    requires
        op_applies(p1, p2, GenomeOp::SwapLayers { a, b }),
    ensures
        ({
            let child = spec_apply_op(p1, p2, GenomeOp::SwapLayers { a, b });
            &&& child.len() == p1.len()
            &&& child[a as int] == p1[b as int]
            &&& child[b as int] == p1[a as int]
            &&& forall|i: int| 0 <= i < p1.len() && i != a && i != b ==> #[trigger] child[i] == p1[i]
            &&& child.to_multiset() == p1.to_multiset()
        }),
{
    broadcast use vstd::seq_lib::to_multiset_update;
    broadcast use vstd::multiset::group_multiset_axioms;

    let child = spec_apply_op(p1, p2, GenomeOp::SwapLayers { a, b });
    let q = p1.update(a as int, p1[b as int]);
    let pa = p1[a as int];
    let pb = p1[b as int];
    let m = p1.to_multiset();
    assert(q.to_multiset() == m.insert(pb).remove(pa));
    if a == b {
        assert(child =~= p1);
    } else {
        assert(q[b as int] == pb);
        assert(child.to_multiset() == q.to_multiset().insert(pa).remove(pb));
        assert(m.count(pa) > 0) by {
            vstd::seq_lib::to_multiset_contains(p1, pa);
            assert(p1.contains(pa));
        }
        assert(child.to_multiset() =~= m);
    }
}

/// Swapping key `k1` of layer `l1` with key `k2` of layer `l2`: the first takes the second's
/// key set and the second the first's, every other key stays, and every layer keeps its
/// length.
pub proof fn law_swap_keys(p1: Seq<Seq<KcSet>>, p2: Seq<Seq<KcSet>>, l1: usize, k1: usize, l2: usize, k2: usize)
    requires
        op_applies(p1, p2, GenomeOp::SwapKeys { l1, k1, l2, k2 }),
    ensures
        ({
            let child = spec_apply_op(p1, p2, GenomeOp::SwapKeys { l1, k1, l2, k2 });
            &&& child.len() == p1.len()
            &&& forall|i: int| 0 <= i < p1.len() ==> (#[trigger] child[i]).len() == p1[i].len()
            &&& child[l1 as int][k1 as int] == p1[l2 as int][k2 as int]
            &&& child[l2 as int][k2 as int] == p1[l1 as int][k1 as int]
            &&& forall|i: int, k: int|
                0 <= i < p1.len() && 0 <= k < p1[i].len() && (i != l1 || k != k1) && (i != l2 || k != k2)
                    ==> #[trigger] child[i][k] == p1[i][k]
        }),
{
}

} // verus!
