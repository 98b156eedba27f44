//! Reconciles a position store with the node set of a graph: entries of
//! nodes that left the graph are dropped, nodes without an entry get one at
//! the next point of a small cyclic lattice walk.
use vstd::prelude::*;

use crate::graph::{Graph, NodeId, well_formed};
use crate::positions::{NodePositions, keys_of};

verus! {

/// Step of the default-placement walk along each axis.
pub const PLACEMENT_STEP: i64 = 30;

/// Bound of the default-placement walk: coordinates stay in
/// `[-PLACEMENT_BOUND, PLACEMENT_BOUND)`.
pub const PLACEMENT_BOUND: i64 = 300;

/// Symmetric wrap of `v` into `[-PLACEMENT_BOUND, PLACEMENT_BOUND)`.
pub open spec fn cycle(v: int) -> int {
    (v + PLACEMENT_BOUND) % (2 * PLACEMENT_BOUND) - PLACEMENT_BOUND
}

/// The `k`-th point of the default-placement walk: it starts at
/// `(0, PLACEMENT_STEP)` and moves by `(+PLACEMENT_STEP, -PLACEMENT_STEP)`,
/// each coordinate wrapped by `cycle`.
pub open spec fn lattice_point(k: nat) -> (int, int)
    decreases k,
{
    if k == 0 {
        (0, PLACEMENT_STEP as int)
    } else {
        let (x, y) = lattice_point((k - 1) as nat);
        (cycle(x + PLACEMENT_STEP), cycle(y - PLACEMENT_STEP))
    }
}

/// The entries of `s` whose node is among `nodes`, in order.
pub open spec fn pruned<V>(s: Seq<(NodeId, V)>, nodes: Seq<NodeId>) -> Seq<(NodeId, V)>
    decreases s.len(),
{
    if s.len() == 0 {
        s
    } else {
        let p = pruned(s.drop_last(), nodes);
        if nodes.contains(s.last().0) {
            p.push(s.last())
        } else {
            p
        }
    }
}

/// The nodes of `nodes` that are not among `keys`, in order.
pub open spec fn missing(nodes: Seq<NodeId>, keys: Seq<NodeId>) -> Seq<NodeId>
    decreases nodes.len(),
{
    if nodes.len() == 0 {
        nodes
    } else {
        let p = missing(nodes.drop_last(), keys);
        if keys.contains(nodes.last()) {
            p
        } else {
            p.push(nodes.last())
        }
    }
}

/// `after` is what synchronizing `before` against `nodes` gives: the kept
/// entries in their order, then one new entry for each missing node, in the
/// order of `nodes`.
pub open spec fn synchronizes<V>(
    before: Seq<(NodeId, V)>,
    after: Seq<(NodeId, V)>,
    nodes: Seq<NodeId>,
) -> bool {
    let kept = pruned(before, nodes);
    let fresh = missing(nodes, keys_of(before));
    &&& after.len() == kept.len() + fresh.len()
    &&& after.take(kept.len() as int) == kept
    &&& forall|j: int| 0 <= j < fresh.len() ==> #[trigger] after[kept.len() + j].0 == fresh[j]
}

proof fn lemma_keys_push<V>(s: Seq<(NodeId, V)>, e: (NodeId, V))
    ensures
        keys_of(s.push(e)) == keys_of(s).push(e.0),
{
    assert(keys_of(s.push(e)) =~= keys_of(s).push(e.0));
}

proof fn lemma_keys_drop_last<V>(s: Seq<(NodeId, V)>)
    requires
        s.len() > 0,
    ensures
        keys_of(s.drop_last()) == keys_of(s).drop_last(),
        keys_of(s).last() == s.last().0,
{
    assert(keys_of(s.drop_last()) =~= keys_of(s).drop_last());
}

proof fn lemma_push_contains<A>(s: Seq<A>, x: A, n: A)
    ensures
        s.push(x).contains(n) <==> (s.contains(n) || n == x),
{
    if s.contains(n) {
        let i = choose|i: int| 0 <= i < s.len() && s[i] == n;
        assert(s.push(x)[i] == n);
    }
    if n == x {
        assert(s.push(x)[s.len() as int] == n);
    }
    if s.push(x).contains(n) && n != x {
        let i = choose|i: int| 0 <= i < s.len() + 1 && s.push(x)[i] == n;
        assert(s[i] == n);
    }
}

/// A kept entry is an entry of `s`, and its node is among `nodes`.
proof fn lemma_pruned_contains<V>(s: Seq<(NodeId, V)>, nodes: Seq<NodeId>, e: (NodeId, V))
    ensures
        pruned(s, nodes).contains(e) <==> (s.contains(e) && nodes.contains(e.0)),
    decreases s.len(),
{
    if s.len() > 0 {
        let d = s.drop_last();
        lemma_pruned_contains(d, nodes, e);
        assert(s =~= d.push(s.last()));
        lemma_push_contains(d, s.last(), e);
        lemma_push_contains(pruned(d, nodes), s.last(), e);
    }
}

proof fn lemma_pruned_keys<V>(s: Seq<(NodeId, V)>, nodes: Seq<NodeId>, n: NodeId)
    ensures
        keys_of(pruned(s, nodes)).contains(n) <==> (keys_of(s).contains(n) && nodes.contains(n)),
    decreases s.len(),
{
    if s.len() > 0 {
        let d = s.drop_last();
        lemma_pruned_keys(d, nodes, n);
        lemma_keys_drop_last(s);
        assert(keys_of(s) =~= keys_of(d).push(s.last().0));
        lemma_push_contains(keys_of(d), s.last().0, n);
        if nodes.contains(s.last().0) {
            lemma_keys_push(pruned(d, nodes), s.last());
            lemma_push_contains(keys_of(pruned(d, nodes)), s.last().0, n);
        }
    }
}

proof fn lemma_pruned_push<V>(s: Seq<(NodeId, V)>, e: (NodeId, V), nodes: Seq<NodeId>)
    ensures
        pruned(s.push(e), nodes) == (if nodes.contains(e.0) {
            pruned(s, nodes).push(e)
        } else {
            pruned(s, nodes)
        }),
{
    assert(s.push(e).drop_last() =~= s);
}

proof fn lemma_missing_push(nodes: Seq<NodeId>, n: NodeId, keys: Seq<NodeId>)
    ensures
        missing(nodes.push(n), keys) == (if keys.contains(n) {
            missing(nodes, keys)
        } else {
            missing(nodes, keys).push(n)
        }),
{
    assert(nodes.push(n).drop_last() =~= nodes);
}

proof fn lemma_pruned_no_duplicates<V>(s: Seq<(NodeId, V)>, nodes: Seq<NodeId>)
    requires
        keys_of(s).no_duplicates(),
    ensures
        keys_of(pruned(s, nodes)).no_duplicates(),
    decreases s.len(),
{
    if s.len() > 0 {
        let d = s.drop_last();
        lemma_keys_drop_last(s);
        assert(keys_of(d).no_duplicates());
        lemma_pruned_no_duplicates(d, nodes);
        if nodes.contains(s.last().0) {
            lemma_keys_push(pruned(d, nodes), s.last());
            lemma_pruned_keys(d, nodes, s.last().0);
            if keys_of(d).contains(s.last().0) {
                let i = choose|i: int| 0 <= i < keys_of(d).len() && keys_of(d)[i] == s.last().0;
                assert(keys_of(s)[i] == keys_of(s)[s.len() - 1]);
            }
        }
    }
}

proof fn lemma_pruned_all_kept<V>(s: Seq<(NodeId, V)>, nodes: Seq<NodeId>)
    requires
        forall|i: int| 0 <= i < s.len() ==> nodes.contains(#[trigger] s[i].0),
    ensures
        pruned(s, nodes) == s,
    decreases s.len(),
{
    if s.len() > 0 {
        let d = s.drop_last();
        assert forall|i: int| 0 <= i < d.len() implies nodes.contains(#[trigger] d[i].0) by {
            assert(d[i] == s[i]);
        }
        lemma_pruned_all_kept(d, nodes);
        assert(nodes.contains(s[s.len() - 1].0));
        assert(d.push(s.last()) =~= s);
    }
}

proof fn lemma_missing_contains(nodes: Seq<NodeId>, keys: Seq<NodeId>, n: NodeId)
    ensures
        missing(nodes, keys).contains(n) <==> (nodes.contains(n) && !keys.contains(n)),
    decreases nodes.len(),
{
    if nodes.len() > 0 {
        let d = nodes.drop_last();
        lemma_missing_contains(d, keys, n);
        assert(nodes == d.push(nodes.last()));
        if nodes.contains(n) && n != nodes.last() {
            let i = choose|i: int| 0 <= i < nodes.len() && nodes[i] == n;
            assert(d[i] == n);
        }
        if d.contains(n) {
            let i = choose|i: int| 0 <= i < d.len() && d[i] == n;
            assert(nodes[i] == n);
        }
        if n == nodes.last() {
            assert(nodes[nodes.len() - 1] == n);
        }
        let p = missing(d, keys);
        if !keys.contains(nodes.last()) {
            if p.contains(n) {
                let i = choose|i: int| 0 <= i < p.len() && p[i] == n;
                assert(p.push(nodes.last())[i] == n);
            }
            if p.push(nodes.last()).contains(n) && n != nodes.last() {
                let i = choose|i: int| 0 <= i < p.len() + 1 && p.push(nodes.last())[i] == n;
                assert(p[i] == n);
            }
            if n == nodes.last() {
                assert(p.push(nodes.last())[p.len() as int] == n);
            }
        }
    }
}

proof fn lemma_missing_no_duplicates(nodes: Seq<NodeId>, keys: Seq<NodeId>)
    requires
        nodes.no_duplicates(),
    ensures
        missing(nodes, keys).no_duplicates(),
    decreases nodes.len(),
{
    if nodes.len() > 0 {
        let d = nodes.drop_last();
        assert(d.no_duplicates());
        lemma_missing_no_duplicates(d, keys);
        lemma_missing_contains(d, keys, nodes.last());
        if d.contains(nodes.last()) {
            let i = choose|i: int| 0 <= i < d.len() && d[i] == nodes.last();
            assert(nodes[i] == nodes[nodes.len() - 1]);
        }
    }
}

proof fn lemma_missing_none(nodes: Seq<NodeId>, keys: Seq<NodeId>)
    requires
        forall|i: int| 0 <= i < nodes.len() ==> keys.contains(#[trigger] nodes[i]),
    ensures
        missing(nodes, keys) == Seq::<NodeId>::empty(),
    decreases nodes.len(),
{
    if nodes.len() > 0 {
        let d = nodes.drop_last();
        assert forall|i: int| 0 <= i < d.len() implies keys.contains(#[trigger] d[i]) by {
            assert(d[i] == nodes[i]);
        }
        lemma_missing_none(d, keys);
        assert(keys.contains(nodes[nodes.len() - 1]));
    }
}

/// Synchronization closure: after synchronizing, the stored ids are exactly
/// the graph's nodes, each once, and every node that was stored before and
/// is still in the graph keeps its value.
pub proof fn lemma_synchronization_closure<V>(
    before: Seq<(NodeId, V)>,
    after: Seq<(NodeId, V)>,
    nodes: Seq<NodeId>,
)
    requires
        nodes.no_duplicates(),
        keys_of(before).no_duplicates(),
        synchronizes(before, after, nodes),
    ensures
        keys_of(after).to_set() == nodes.to_set(),
        keys_of(after).no_duplicates(),
        forall|i: int, j: int|
            0 <= i < before.len() && 0 <= j < after.len() && before[i].0 == after[j].0 ==> before[i].1
                == after[j].1,
{
    let kept = pruned(before, nodes);
    let fresh = missing(nodes, keys_of(before));
    let k = kept.len() as int;
    lemma_pruned_no_duplicates(before, nodes);
    lemma_missing_no_duplicates(nodes, keys_of(before));
    assert forall|j: int| 0 <= j < k implies #[trigger] after[j] == kept[j] by {
        assert(after.take(k)[j] == after[j]);
    }
    assert forall|j: int| 0 <= j < k implies #[trigger] keys_of(after)[j] == keys_of(kept)[j] by {
        assert(after[j] == kept[j]);
    }
    assert forall|j: int| k <= j < after.len() implies #[trigger] keys_of(after)[j] == fresh[j - k] by {
        assert(after[k + (j - k)].0 == fresh[j - k]);
    }
    // every stored id is a node, and every node is stored
    assert forall|n: NodeId| keys_of(after).contains(n) implies nodes.contains(n) by {
        let j = choose|j: int| 0 <= j < keys_of(after).len() && keys_of(after)[j] == n;
        if j < k {
            assert(keys_of(kept)[j] == n);
            lemma_pruned_keys(before, nodes, n);
        } else {
            assert(fresh[j - k] == n);
            lemma_missing_contains(nodes, keys_of(before), n);
        }
    }
    assert forall|n: NodeId| nodes.contains(n) implies keys_of(after).contains(n) by {
        lemma_pruned_keys(before, nodes, n);
        lemma_missing_contains(nodes, keys_of(before), n);
        if keys_of(before).contains(n) {
            let j = choose|j: int| 0 <= j < keys_of(kept).len() && keys_of(kept)[j] == n;
            assert(keys_of(after)[j] == n);
        } else {
            let j = choose|j: int| 0 <= j < fresh.len() && fresh[j] == n;
            assert(keys_of(after)[k + j] == n);
        }
    }
    assert(keys_of(after).to_set() =~= nodes.to_set());
    // no id twice
    assert forall|p: int, q: int|
        0 <= p < keys_of(after).len() && 0 <= q < keys_of(after).len() && p != q implies keys_of(
        after,
    )[p] != keys_of(after)[q] by {
        if p < k && q < k {
        } else if p >= k && q >= k {
        } else {
            let (a, b) = if p < k {
                (p, q)
            } else {
                (q, p)
            };
            let n = keys_of(after)[a];
            assert(keys_of(kept)[a] == n);
            lemma_pruned_keys(before, nodes, n);
            assert(fresh[b - k] == keys_of(after)[b]);
            lemma_missing_contains(nodes, keys_of(before), keys_of(after)[b]);
        }
    }
    // kept values are unchanged
    assert forall|i: int, j: int|
        0 <= i < before.len() && 0 <= j < after.len() && before[i].0 == after[j].0 implies before[i].1
        == after[j].1 by {
        if j < k {
            lemma_pruned_contains(before, nodes, kept[j]);
            let i2 = choose|i2: int| 0 <= i2 < before.len() && before[i2] == kept[j];
            assert(keys_of(before)[i2] == keys_of(before)[i]);
        } else {
            assert(after[k + (j - k)].0 == fresh[j - k]);
            lemma_missing_contains(nodes, keys_of(before), after[j].0);
            assert(keys_of(before)[i] == before[i].0);
        }
    }
}

/// Idempotent re-synchronization: synchronizing a second time against the
/// same nodes changes nothing.
pub proof fn lemma_synchronize_idempotent<V>(
    first: Seq<(NodeId, V)>,
    once: Seq<(NodeId, V)>,
    twice: Seq<(NodeId, V)>,
    nodes: Seq<NodeId>,
)
    requires
        nodes.no_duplicates(),
        keys_of(first).no_duplicates(),
        synchronizes(first, once, nodes),
        synchronizes(once, twice, nodes),
    ensures
        twice == once,
{
    lemma_synchronization_closure(first, once, nodes);
    assert forall|i: int| 0 <= i < once.len() implies nodes.contains(#[trigger] once[i].0) by {
        assert(keys_of(once)[i] == once[i].0);
        assert(keys_of(once).to_set().contains(once[i].0));
    }
    lemma_pruned_all_kept(once, nodes);
    assert forall|i: int| 0 <= i < nodes.len() implies keys_of(once).contains(#[trigger] nodes[i]) by {
        assert(nodes.to_set().contains(nodes[i]));
    }
    lemma_missing_none(nodes, keys_of(once));
    assert(twice =~= twice.take(once.len() as int));
}

/// One step of the default-placement walk.
pub fn next_lattice_point(x: i64, y: i64) -> (r: (i64, i64))
    requires
        -PLACEMENT_BOUND <= x < PLACEMENT_BOUND,
        -PLACEMENT_BOUND <= y < PLACEMENT_BOUND,
    ensures
        r.0 == cycle(x + PLACEMENT_STEP),
        r.1 == cycle(y - PLACEMENT_STEP),
        -PLACEMENT_BOUND <= r.0 < PLACEMENT_BOUND,
        -PLACEMENT_BOUND <= r.1 < PLACEMENT_BOUND,
{
    let nx = if x + PLACEMENT_STEP >= PLACEMENT_BOUND {
        x + PLACEMENT_STEP - 2 * PLACEMENT_BOUND
    } else {
        x + PLACEMENT_STEP
    };
    let ny = if y - PLACEMENT_STEP < -PLACEMENT_BOUND {
        y - PLACEMENT_STEP + 2 * PLACEMENT_BOUND
    } else {
        y - PLACEMENT_STEP
    };
    (nx, ny)
}

proof fn lemma_lattice_point_bounds(k: nat)
    ensures
        -PLACEMENT_BOUND <= lattice_point(k).0 < PLACEMENT_BOUND,
        -PLACEMENT_BOUND <= lattice_point(k).1 < PLACEMENT_BOUND,
    decreases k,
{
    if k > 0 {
        lemma_lattice_point_bounds((k - 1) as nat);
    }
}

/// Drops the entries of nodes that are not in `graph`, keeping the order of
/// the rest.
pub fn prune<G: Graph, V>(graph: &G, positions: &mut NodePositions<V>)
    requires
        old(positions).wf(),
    ensures
        final(positions)@ == pruned(old(positions)@, graph.node_seq()),
        final(positions).wf(),
{
    let ghost orig = positions@;
    let ghost nodes = graph.node_seq();
    let mut i: usize = 0;
    let ghost mut j: int = 0;
    while i < positions.len()
        invariant
            nodes == graph.node_seq(),
            0 <= j <= orig.len(),
            positions@ == pruned(orig.take(j), nodes) + orig.skip(j),
            i == pruned(orig.take(j), nodes).len(),
        decreases positions@.len() - i,
    {
        let ghost kept = pruned(orig.take(j), nodes);
        proof {
            assert(positions@[i as int] == orig[j]) by {
                assert(positions@[i as int] == orig.skip(j)[0]);
            }
            assert(orig.take(j + 1) =~= orig.take(j).push(orig[j]));
            lemma_pruned_push(orig.take(j), orig[j], nodes);
            assert(orig.skip(j) =~= seq![orig[j]] + orig.skip(j + 1));
        }
        let id = positions.entry(i).0;
        if graph.contains_node(id) {
            i = i + 1;
            proof {
                assert(pruned(orig.take(j + 1), nodes) == kept.push(orig[j]));
                assert(positions@ =~= kept.push(orig[j]) + orig.skip(j + 1));
            }
        } else {
            positions.remove_at(i);
            proof {
                assert(pruned(orig.take(j + 1), nodes) == kept);
                assert(positions@ =~= kept + orig.skip(j + 1));
            }
        }
        proof {
            j = j + 1;
        }
    }
    proof {
        assert(orig.take(j) =~= orig) by {
            assert(orig.skip(j).len() == 0);
        }
        assert(positions@ =~= pruned(orig, nodes));
        lemma_pruned_no_duplicates(orig, nodes);
    }
}

/// Synchronizes `positions` with the nodes of `graph`: entries of nodes that
/// are not in `graph` are dropped, the others keep their value and order, and
/// each node of `graph` without an entry gets one, in graph order, valued
/// `place(x, y)` at the next point `(x, y)` of the default-placement walk.
pub fn synchronize<G: Graph, V, F: Fn(i64, i64) -> V>(
    graph: &G,
    positions: &mut NodePositions<V>,
    place: F,
)
    requires
        well_formed(graph),
        old(positions).wf(),
        forall|x: i64, y: i64| place.requires((x, y)),
    ensures
        synchronizes(old(positions)@, final(positions)@, graph.node_seq()),
        final(positions).wf(),
        final(positions).keys().to_set() == graph.node_seq().to_set(),
        forall|i: int, j: int|
            0 <= i < old(positions)@.len() && 0 <= j < final(positions)@.len() && old(positions)@[i].0
                == final(positions)@[j].0 ==> old(positions)@[i].1 == final(positions)@[j].1,
        ({
            let k = pruned(old(positions)@, graph.node_seq()).len();
            forall|j: int|
                0 <= j < final(positions)@.len() - k ==> place.ensures(
                    (lattice_point(j as nat).0 as i64, lattice_point(j as nat).1 as i64),
                    #[trigger] final(positions)@[k + j].1,
                )
        }),
{
    let ghost orig = positions@;
    let ghost nodes = graph.node_seq();
    prune(graph, positions);
    let ghost kept = positions@;
    proof {
        assert forall|n: NodeId| nodes.contains(n) implies (keys_of(kept).contains(n) <==> keys_of(
            orig,
        ).contains(n)) by {
            lemma_pruned_keys(orig, nodes, n);
        }
    }
    let ids = graph.iter_nodes();
    let mut x: i64 = 0;
    let mut y: i64 = PLACEMENT_STEP;
    let mut t: usize = 0;
    while t < ids.len()
        invariant
            well_formed(graph),
            ids@ == nodes,
            nodes == graph.node_seq(),
            forall|x: i64, y: i64| place.requires((x, y)),
            t <= ids@.len(),
            positions.wf(),
            forall|n: NodeId| nodes.contains(n) ==> (keys_of(kept).contains(n) <==> keys_of(
                orig,
            ).contains(n)),
            positions@.len() == kept.len() + missing(nodes.take(t as int), keys_of(orig)).len(),
            positions@.take(kept.len() as int) == kept,
            forall|j: int|
                0 <= j < missing(nodes.take(t as int), keys_of(orig)).len() ==> #[trigger] positions@[kept.len()
                    + j].0 == missing(nodes.take(t as int), keys_of(orig))[j],
            forall|j: int|
                0 <= j < positions@.len() - kept.len() ==> place.ensures(
                    (lattice_point(j as nat).0 as i64, lattice_point(j as nat).1 as i64),
                    #[trigger] positions@[kept.len() + j].1,
                ),
            x == lattice_point((positions@.len() - kept.len()) as nat).0,
            y == lattice_point((positions@.len() - kept.len()) as nat).1,
        decreases ids@.len() - t,
    {
        let n = ids[t];
        let ghost before = positions@;
        let ghost fresh = missing(nodes.take(t as int), keys_of(orig));
        proof {
            assert(nodes.take(t + 1) =~= nodes.take(t as int).push(n));
            lemma_missing_push(nodes.take(t as int), n, keys_of(orig));
            assert(nodes.contains(n)) by {
                assert(nodes[t as int] == n);
            }
            lemma_lattice_point_bounds((positions@.len() - kept.len()) as nat);
            // n is stored now exactly when it was stored before the prune
            assert forall|q: int| 0 <= q < kept.len() implies #[trigger] keys_of(before)[q] == keys_of(
                kept,
            )[q] by {
                assert(before.take(kept.len() as int)[q] == before[q]);
            }
            assert forall|q: int| kept.len() <= q < before.len() implies #[trigger] keys_of(before)[q]
                == fresh[q - kept.len()] by {
                assert(before[kept.len() + (q - kept.len())].0 == fresh[q - kept.len()]);
            }
            assert(keys_of(before) =~= keys_of(kept) + fresh);
            lemma_missing_contains(nodes.take(t as int), keys_of(orig), n);
            if nodes.take(t as int).contains(n) {
                let q = choose|q: int| 0 <= q < t && nodes.take(t as int)[q] == n;
                assert(nodes[q] == nodes[t as int]);
            }
            if keys_of(before).contains(n) && !keys_of(kept).contains(n) {
                let q = choose|q: int| 0 <= q < keys_of(before).len() && keys_of(before)[q] == n;
                if q < kept.len() {
                    assert(keys_of(kept)[q] == n);
                } else {
                    assert(fresh.contains(n)) by {
                        assert(fresh[q - kept.len()] == n);
                    }
                }
            }
            if keys_of(kept).contains(n) {
                let q = choose|q: int| 0 <= q < keys_of(kept).len() && keys_of(kept)[q] == n;
                assert(keys_of(before)[q] == n);
            }
        }
        if !positions.contains(n) {
            let value = place(x, y);
            positions.push_new(n, value);
            let (nx, ny) = next_lattice_point(x, y);
            x = nx;
            y = ny;
            proof {
                assert(missing(nodes.take(t + 1), keys_of(orig)) == fresh.push(n));
                assert(positions@.take(kept.len() as int) =~= before.take(kept.len() as int));
                assert forall|j: int|
                    0 <= j < fresh.len() + 1 implies #[trigger] positions@[kept.len() + j].0 == fresh.push(
                    n,
                )[j] by {
                    if j < fresh.len() {
                        assert(positions@[kept.len() + j] == before[kept.len() + j]);
                    }
                }
                assert forall|j: int| 0 <= j < positions@.len() - kept.len() implies place.ensures(
                    (lattice_point(j as nat).0 as i64, lattice_point(j as nat).1 as i64),
                    #[trigger] positions@[kept.len() + j].1,
                ) by {
                    if j < before.len() - kept.len() {
                        assert(positions@[kept.len() + j] == before[kept.len() + j]);
                    }
                }
            }
        } else {
            proof {
                assert(missing(nodes.take(t + 1), keys_of(orig)) == fresh);
            }
        }
        t = t + 1;
    }
    proof {
        assert(nodes.take(t as int) =~= nodes);
        lemma_synchronization_closure(orig, positions@, nodes);
    }
}

} // verus!
