//! The interaction list of one force-directed placement step.
//!
//! A step sets every node's force to the centering pull, then adds the
//! repulsion of every unordered pair of nodes and the spring of every edge.
//! Which store slots take part in each of these passes, and in which order,
//! is computed and checked here; the arithmetic on coordinates is done by the
//! caller on the slots this plan names.
use vstd::prelude::*;

use crate::graph::{Graph, NodeId, well_formed};
use crate::positions::NodePositions;

verus! {

/// A node of the graph has no entry in the position store.
#[derive(Clone, Copy, PartialEq, Eq, Structural, Debug)]
pub struct MissingPosition(pub NodeId);

/// Store slots touched by one step.
pub struct ForcePlan {
    /// The slot of each graph node, in graph order.
    pub slots: Vec<usize>,
    /// The slots of every unordered pair of graph nodes, `(a, b)` with `a`
    /// before `b` in graph order: `a` is pushed away from `b` and `b` from
    /// `a` by the same amount.
    pub pairs: Vec<(usize, usize)>,
    /// The slots of the endpoints `(from, to)` of each edge, in graph order.
    pub springs: Vec<(usize, usize)>,
}

/// The pairs whose first member is `s[i]`, in order.
pub open spec fn pair_row(s: Seq<usize>, i: int) -> Seq<(usize, usize)> {
    s.subrange(i + 1, s.len() as int).map_values(|x: usize| (s[i], x))
}

/// The pairs whose first member is one of the first `i` elements of `s`.
pub open spec fn pairs_upto(s: Seq<usize>, i: nat) -> Seq<(usize, usize)>
    decreases i,
{
    if i == 0 {
        Seq::empty()
    } else {
        pairs_upto(s, (i - 1) as nat) + pair_row(s, i - 1)
    }
}

/// Every pair `(s[i], s[j])` with `i < j`, ordered by `i` then `j`.
pub open spec fn all_pairs(s: Seq<usize>) -> Seq<(usize, usize)> {
    pairs_upto(s, s.len())
}

/// Every graph node has an entry in the store.
pub open spec fn all_placed<G: Graph, V>(graph: &G, positions: &NodePositions<V>) -> bool {
    forall|n: NodeId| graph.node_seq().contains(n) ==> positions.keys().contains(n)
}

/// `slot` is the slot of node `n`.
pub open spec fn slot_of<V>(positions: &NodePositions<V>, slot: usize, n: NodeId) -> bool {
    slot < positions@.len() && positions.keys()[slot as int] == n
}

/// `plan` names, for `graph` and `positions`, the slots described on
/// `ForcePlan`.
pub open spec fn plans<G: Graph, V>(graph: &G, positions: &NodePositions<V>, plan: &ForcePlan) -> bool {
    &&& plan.slots@.len() == graph.node_seq().len()
    &&& forall|i: int|
        0 <= i < plan.slots@.len() ==> slot_of(positions, #[trigger] plan.slots@[i], graph.node_seq()[i])
    &&& plan.pairs@ == all_pairs(plan.slots@)
    &&& plan.springs@.len() == graph.edge_seq().len()
    &&& forall|e: int|
        0 <= e < plan.springs@.len() ==> {
            &&& slot_of(positions, (#[trigger] plan.springs@[e]).0, graph.edge_seq()[e].0)
            &&& slot_of(positions, plan.springs@[e].1, graph.edge_seq()[e].1)
        }
}

/// The slots of one step over `graph`, or the first graph node (in graph
/// order) that has no entry in `positions`.
pub fn plan_forces<G: Graph, V>(graph: &G, positions: &NodePositions<V>) -> (r: Result<
    ForcePlan,
    MissingPosition,
>)
    requires
        well_formed(graph),
        positions.wf(),
    ensures
        r is Ok <==> all_placed(graph, positions),
        match r {
            Ok(plan) => plans(graph, positions, &plan) && plan.slots@.no_duplicates(),
            Err(MissingPosition(n)) => graph.node_seq().contains(n) && !positions.keys().contains(n),
        },
{
    let ids = graph.iter_nodes();
    let ghost nodes = graph.node_seq();
    let mut slots: Vec<usize> = Vec::new();
    let mut i: usize = 0;
    while i < ids.len()
        invariant
            ids@ == nodes,
            nodes == graph.node_seq(),
            i <= ids@.len(),
            slots@.len() == i,
            forall|k: int| 0 <= k < i ==> slot_of(positions, #[trigger] slots@[k], nodes[k]),
        decreases ids@.len() - i,
    {
        match positions.index_of(ids[i]) {
            Some(slot) => {
                slots.push(slot);
            },
            None => {
                proof {
                    assert(nodes.contains(nodes[i as int]));
                }
                return Err(MissingPosition(ids[i]));
            },
        }
        i = i + 1;
    }
    proof {
        assert forall|n: NodeId| nodes.contains(n) implies positions.keys().contains(n) by {
            let k = choose|k: int| 0 <= k < nodes.len() && nodes[k] == n;
            assert(slot_of(positions, slots@[k], nodes[k]));
        }
    }
    proof {
        assert forall|x: int, y: int|
            0 <= x < slots@.len() && 0 <= y < slots@.len() && x != y implies slots@[x] != slots@[y] by {
            assert(slot_of(positions, slots@[x], nodes[x]));
            assert(slot_of(positions, slots@[y], nodes[y]));
        }
    }
    let pairs = all_slot_pairs(&slots);
    let edges = graph.iter_edges();
    let mut springs: Vec<(usize, usize)> = Vec::new();
    let mut e: usize = 0;
    while e < edges.len()
        invariant
            well_formed(graph),
            all_placed(graph, positions),
            edges@ == graph.edge_seq(),
            e <= edges@.len(),
            springs@.len() == e,
            forall|k: int|
                0 <= k < e ==> {
                    &&& slot_of(positions, (#[trigger] springs@[k]).0, graph.edge_seq()[k].0)
                    &&& slot_of(positions, springs@[k].1, graph.edge_seq()[k].1)
                },
        decreases edges@.len() - e,
    {
        let id = edges[e];
        proof {
            assert(graph.node_seq().contains(graph.edge_seq()[e as int].0));
            assert(graph.node_seq().contains(graph.edge_seq()[e as int].1));
        }
        let from = positions.index_of(id.0);
        let to = positions.index_of(id.1);
        match (from, to) {
            (Some(a), Some(b)) => {
                springs.push((a, b));
            },
            _ => {
                // every endpoint is a node, and every node was found above
                proof {
                    assert(false);
                }
                return Err(MissingPosition(id.0));
            },
        }
        e = e + 1;
    }
    Ok(ForcePlan { slots, pairs, springs })
}

/// Every pair `(s[i], s[j])` with `i < j`, ordered by `i` then `j`.
pub fn all_slot_pairs(s: &Vec<usize>) -> (r: Vec<(usize, usize)>)
    ensures
        r@ == all_pairs(s@),
{
    let n = s.len();
    let mut r: Vec<(usize, usize)> = Vec::new();
    let mut i: usize = 0;
    while i < n
        invariant
            n == s@.len(),
            i <= n,
            r@ == pairs_upto(s@, i as nat),
        decreases n - i,
    {
        let mut j: usize = i + 1;
        while j < n
            invariant
                n == s@.len(),
                i < n,
                i + 1 <= j <= n,
                r@ == pairs_upto(s@, i as nat) + s@.subrange(i + 1, j as int).map_values(
                    |x: usize| (s@[i as int], x),
                ),
            decreases n - j,
        {
            r.push((s[i], s[j]));
            proof {
                assert(s@.subrange(i + 1, j + 1) =~= s@.subrange(i + 1, j as int).push(s@[j as int]));
                assert(s@.subrange(i + 1, j + 1).map_values(|x: usize| (s@[i as int], x)) =~= s@.subrange(
                    i + 1,
                    j as int,
                ).map_values(|x: usize| (s@[i as int], x)).push((s@[i as int], s@[j as int])));
            }
            j = j + 1;
        }
        proof {
            assert(pairs_upto(s@, (i + 1) as nat) == pairs_upto(s@, i as nat) + pair_row(s@, i as int));
        }
        i = i + 1;
    }
    r
}

proof fn lemma_row_contains(s: Seq<usize>, i: int, p: (usize, usize))
    requires
        0 <= i < s.len(),
    ensures
        pair_row(s, i).contains(p) <==> (p.0 == s[i] && exists|j: int| i < j < s.len() && s[j] == p.1),
{
    let row = pair_row(s, i);
    if row.contains(p) {
        let k = choose|k: int| 0 <= k < row.len() && row[k] == p;
        assert(s[i + 1 + k] == p.1);
    }
    if p.0 == s[i] && exists|j: int| i < j < s.len() && s[j] == p.1 {
        let j = choose|j: int| i < j < s.len() && s[j] == p.1;
        assert(row[j - i - 1] == p);
    }
}

proof fn lemma_concat_contains<A>(a: Seq<A>, b: Seq<A>, x: A)
    ensures
        (a + b).contains(x) <==> (a.contains(x) || b.contains(x)),
{
    if a.contains(x) {
        let k = choose|k: int| 0 <= k < a.len() && a[k] == x;
        assert((a + b)[k] == x);
    }
    if b.contains(x) {
        let k = choose|k: int| 0 <= k < b.len() && b[k] == x;
        assert((a + b)[a.len() + k] == x);
    }
    if (a + b).contains(x) {
        let k = choose|k: int| 0 <= k < (a + b).len() && (a + b)[k] == x;
        if k < a.len() {
            assert(a[k] == x);
        } else {
            assert(b[k - a.len()] == x);
        }
    }
}

proof fn lemma_pairs_upto(s: Seq<usize>, n: nat)
    requires
        s.no_duplicates(),
        n <= s.len(),
    ensures
        pairs_upto(s, n).no_duplicates(),
        forall|p: (usize, usize)|
            pairs_upto(s, n).contains(p) <==> exists|i: int, j: int|
                0 <= i < n && i < j < s.len() && s[i] == p.0 && s[j] == p.1,
    decreases n,
{
    if n > 0 {
        let k = (n - 1) as int;
        lemma_pairs_upto(s, (n - 1) as nat);
        let a = pairs_upto(s, (n - 1) as nat);
        let b = pair_row(s, k);
        assert forall|p: (usize, usize)|
            pairs_upto(s, n).contains(p) <==> exists|i: int, j: int|
                0 <= i < n && i < j < s.len() && s[i] == p.0 && s[j] == p.1 by {
            lemma_concat_contains(a, b, p);
            lemma_row_contains(s, k, p);
            if exists|i: int, j: int| 0 <= i < n && i < j < s.len() && s[i] == p.0 && s[j] == p.1 {
                let (i, j) = choose|i: int, j: int|
                    0 <= i < n && i < j < s.len() && s[i] == p.0 && s[j] == p.1;
                if i < k {
                    assert(exists|i2: int, j2: int|
                        0 <= i2 < n - 1 && i2 < j2 < s.len() && s[i2] == p.0 && s[j2] == p.1);
                } else {
                    assert(exists|j2: int| k < j2 < s.len() && s[j2] == p.1);
                }
            }
            if b.contains(p) {
                let j = choose|j: int| k < j < s.len() && s[j] == p.1;
                assert(0 <= k < n && k < j < s.len() && s[k] == p.0 && s[j] == p.1);
            }
        }
        // the new row repeats no pair, and shares none with earlier rows
        assert forall|x: int, y: int| 0 <= x < y < b.len() implies b[x] != b[y] by {
            assert(s[k + 1 + x] != s[k + 1 + y]);
        }
        assert forall|x: int, y: int|
            0 <= x < pairs_upto(s, n).len() && 0 <= y < pairs_upto(s, n).len() && x != y implies pairs_upto(
            s,
            n,
        )[x] != pairs_upto(s, n)[y] by {
            let c = pairs_upto(s, n);
            assert(c == a + b);
            if x < a.len() && y >= a.len() {
                assert(a.contains(c[x]));
                let (i, j) = choose|i: int, j: int|
                    0 <= i < n - 1 && i < j < s.len() && s[i] == c[x].0 && s[j] == c[x].1;
                assert(c[y] == b[y - a.len()]);
                assert(c[y].0 == s[k]);
            } else if y < a.len() && x >= a.len() {
                assert(a.contains(c[y]));
                let (i, j) = choose|i: int, j: int|
                    0 <= i < n - 1 && i < j < s.len() && s[i] == c[y].0 && s[j] == c[y].1;
                assert(c[x] == b[x - a.len()]);
                assert(c[x].0 == s[k]);
            } else if x >= a.len() && y >= a.len() {
                assert(c[x] == b[x - a.len()]);
                assert(c[y] == b[y - a.len()]);
                if x < y {
                    assert(b[x - a.len()] != b[y - a.len()]);
                } else {
                    assert(b[y - a.len()] != b[x - a.len()]);
                }
            } else {
                assert(c[x] == a[x]);
                assert(c[y] == a[y]);
            }
        }
    }
}

/// The repulsion pass meets every unordered pair of distinct nodes exactly
/// once: for slots `s` of distinct nodes, the pair list holds
/// `(s[i], s[j])` for every `i < j`, never `(s[j], s[i])`, and no pair
/// twice. Each listed pair takes one force away from its first node and
/// adds the same force to its second, so the two contributions are
/// opposite.
pub proof fn lemma_repulsion_pairs(s: Seq<usize>)
    requires
        s.no_duplicates(),
    ensures
        all_pairs(s).no_duplicates(),
        forall|i: int, j: int|
            0 <= i < j < s.len() ==> all_pairs(s).contains((s[i], s[j])) && !all_pairs(s).contains(
                (s[j], s[i]),
            ),
        forall|p: (usize, usize)|
            all_pairs(s).contains(p) ==> exists|i: int, j: int|
                0 <= i < j < s.len() && s[i] == p.0 && s[j] == p.1,
{
    lemma_pairs_upto(s, s.len());
    assert forall|i: int, j: int| 0 <= i < j < s.len() implies all_pairs(s).contains((s[i], s[j]))
        && !all_pairs(s).contains((s[j], s[i])) by {
        let p = (s[i], s[j]);
        assert(0 <= i < s.len() && i < j < s.len() && s[i] == p.0 && s[j] == p.1);
        assert(exists|i2: int, j2: int|
            0 <= i2 < s.len() && i2 < j2 < s.len() && s[i2] == p.0 && s[j2] == p.1);
        if all_pairs(s).contains((s[j], s[i])) {
            let (i2, j2) = choose|i2: int, j2: int|
                0 <= i2 < s.len() && i2 < j2 < s.len() && s[i2] == s[j] && s[j2] == s[i];
            assert(i2 == j && j2 == i);
        }
    }
}

} // verus!
