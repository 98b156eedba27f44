//! A mutable graph of notes: nodes with data, directed edges with data,
//! node ids handed out in increasing order.
use vstd::prelude::*;

use crate::graph::{EdgeId, EdgeIncidents, Graph, NodeId, edges_touching, well_formed};

verus! {

/// A node of a note graph: the link that names the note.
pub struct Node {
    pub link: String,
}

/// An edge of a note graph: the text of the link.
pub struct Edge {
    pub text: String,
}

/// An edge leaving a node: its target and data.
pub struct Adjacement<E> {
    pub target: NodeId,
    pub data: E,
}

/// The target and data of each edge of `s` that leaves `id`, in order.
pub open spec fn outgoing_of<E>(s: Seq<(EdgeId, E)>, id: NodeId) -> Seq<(NodeId, E)>
    decreases s.len(),
{
    if s.len() == 0 {
        Seq::empty()
    } else {
        let p = outgoing_of(s.drop_last(), id);
        if s.last().0.0 == id {
            p.push((s.last().0.1, s.last().1))
        } else {
            p
        }
    }
}

/// A graph whose nodes carry `N` and whose edges carry `E`.
pub struct NoteGraph<N, E> {
    nodes: Vec<(NodeId, N)>,
    edges: Vec<(EdgeId, E)>,
    next_id: usize,
}

/// Whether edge `e` has `id` as an endpoint.
pub open spec fn touches(e: EdgeId, id: NodeId) -> bool {
    e.0 == id || e.1 == id
}

/// The edges of `s` that do not touch `id`, in order.
pub open spec fn edges_apart<E>(s: Seq<(EdgeId, E)>, id: NodeId) -> Seq<(EdgeId, E)>
    decreases s.len(),
{
    if s.len() == 0 {
        s
    } else {
        let p = edges_apart(s.drop_last(), id);
        if touches(s.last().0, id) {
            p
        } else {
            p.push(s.last())
        }
    }
}

proof fn lemma_edges_apart_contains<E>(s: Seq<(EdgeId, E)>, id: NodeId, e: (EdgeId, E))
    ensures
        edges_apart(s, id).contains(e) <==> (s.contains(e) && !touches(e.0, id)),
    decreases s.len(),
{
    if s.len() > 0 {
        let d = s.drop_last();
        lemma_edges_apart_contains(d, id, e);
        assert(s =~= d.push(s.last()));
        lemma_seq_push_contains(d, s.last(), e);
        lemma_seq_push_contains(edges_apart(d, id), s.last(), e);
    }
}

proof fn lemma_seq_push_contains<A>(s: Seq<A>, x: A, n: A)
    ensures
        s.push(x).contains(n) <==> (s.contains(n) || n == x),
{
    if s.contains(n) {
        let i = choose|i: int| 0 <= i < s.len() && s[i] == n;
        assert(s.push(x)[i] == n);
    }
    if n == x {
        assert(s.push(x)[s.len() as int] == n);
    }
    if s.push(x).contains(n) && n != x {
        let i = choose|i: int| 0 <= i < s.len() + 1 && s.push(x)[i] == n;
        assert(s[i] == n);
    }
}

proof fn lemma_edges_apart_ids_unique<E>(s: Seq<(EdgeId, E)>, id: NodeId)
    requires
        s.map_values(|e: (EdgeId, E)| e.0).no_duplicates(),
    ensures
        edges_apart(s, id).map_values(|e: (EdgeId, E)| e.0).no_duplicates(),
    decreases s.len(),
{
    if s.len() > 0 {
        let d = s.drop_last();
        assert(d.map_values(|e: (EdgeId, E)| e.0) =~= s.map_values(|e: (EdgeId, E)| e.0).drop_last());
        lemma_edges_apart_ids_unique(d, id);
        if !touches(s.last().0, id) {
            let p = edges_apart(d, id);
            assert(p.push(s.last()).map_values(|e: (EdgeId, E)| e.0) =~= p.map_values(
                |e: (EdgeId, E)| e.0,
            ).push(s.last().0));
            assert forall|k: int| 0 <= k < p.len() implies p[k].0 != s.last().0 by {
                assert(p.contains(p[k]));
                lemma_edges_apart_contains(d, id, p[k]);
                let j = choose|j: int| 0 <= j < d.len() && d[j] == p[k];
                assert(s.map_values(|e: (EdgeId, E)| e.0)[j] == p[k].0);
                assert(s.map_values(|e: (EdgeId, E)| e.0)[s.len() - 1] == s.last().0);
            }
        }
    }
}

impl<N, E> NoteGraph<N, E> {
    pub closed spec fn nodes_view(&self) -> Seq<(NodeId, N)> {
        self.nodes@
    }

    pub closed spec fn edges_view(&self) -> Seq<(EdgeId, E)> {
        self.edges@
    }

    /// The id the next added node gets.
    pub closed spec fn next_id(&self) -> usize {
        self.next_id
    }

    /// Ids are unique, edges join stored nodes, and every id is below
    /// `next_id`.
    pub open spec fn wf(&self) -> bool {
        &&& well_formed(self)
        &&& self.edge_seq().no_duplicates()
        &&& forall|i: int| 0 <= i < self.node_seq().len() ==> (#[trigger] self.node_seq()[i]).0 < self.next_id()
    }

    /// An empty graph.
    pub fn new() -> (r: Self)
        ensures
            r.wf(),
            r.nodes_view() == Seq::<(NodeId, N)>::empty(),
            r.edges_view() == Seq::<(EdgeId, E)>::empty(),
    {
        let r = NoteGraph { nodes: Vec::new(), edges: Vec::new(), next_id: 0 };
        assert(r.node_seq() =~= Seq::<NodeId>::empty());
        assert(r.edge_seq() =~= Seq::<EdgeId>::empty());
        r
    }

    /// Adds a node with `data`, under a fresh id, as the last node.
    pub fn add_node(&mut self, data: N) -> (r: NodeId)
        requires
            old(self).wf(),
            old(self).next_id() < usize::MAX,
        ensures
            final(self).wf(),
            !old(self).node_seq().contains(r),
            final(self).nodes_view() == old(self).nodes_view().push((r, data)),
            final(self).edges_view() == old(self).edges_view(),
            final(self).next_id() == old(self).next_id() + 1,
    {
        let id = NodeId(self.next_id);
        proof {
            if self.node_seq().contains(id) {
                let i = choose|i: int| 0 <= i < self.node_seq().len() && self.node_seq()[i] == id;
                assert(self.node_seq()[i].0 < self.next_id);
            }
        }
        self.nodes.push((id, data));
        self.next_id = self.next_id + 1;
        proof {
            assert(self.node_seq() =~= old(self).node_seq().push(id));
            assert(self.edge_seq() =~= old(self).edge_seq());
            assert forall|e: int| 0 <= e < self.edge_seq().len() implies {
                &&& self.node_seq().contains(#[trigger] self.edge_seq()[e].0)
                &&& self.node_seq().contains(self.edge_seq()[e].1)
            } by {
                let a = choose|k: int|
                    0 <= k < old(self).node_seq().len() && old(self).node_seq()[k] == self.edge_seq()[e].0;
                assert(self.node_seq()[a] == self.edge_seq()[e].0);
                let b = choose|k: int|
                    0 <= k < old(self).node_seq().len() && old(self).node_seq()[k] == self.edge_seq()[e].1;
                assert(self.node_seq()[b] == self.edge_seq()[e].1);
            }
        }
        id
    }

    /// The slot of edge `id`, if it is stored.
    fn edge_index(&self, id: EdgeId) -> (r: Option<usize>)
        ensures
            match r {
                Some(i) => i < self.edges_view().len() && self.edge_seq()[i as int] == id,
                None => !self.edge_seq().contains(id),
            },
    {
        let mut i: usize = 0;
        while i < self.edges.len()
            invariant
                i <= self.edges@.len(),
                forall|j: int| 0 <= j < i ==> self.edge_seq()[j] != id,
            decreases self.edges@.len() - i,
        {
            if self.edges[i].0 == id {
                return Some(i);
            }
            i = i + 1;
        }
        None
    }

    /// The slot of node `id`, if it is stored.
    fn node_index(&self, id: NodeId) -> (r: Option<usize>)
        ensures
            match r {
                Some(i) => i < self.nodes_view().len() && self.node_seq()[i as int] == id,
                None => !self.node_seq().contains(id),
            },
    {
        let mut i: usize = 0;
        while i < self.nodes.len()
            invariant
                i <= self.nodes@.len(),
                forall|j: int| 0 <= j < i ==> self.node_seq()[j] != id,
            decreases self.nodes@.len() - i,
        {
            if self.nodes[i].0 == id {
                return Some(i);
            }
            i = i + 1;
        }
        None
    }

    /// Adds the edge `from -> to` with `data`, as the last edge; an edge
    /// with the same endpoints has its data replaced instead. `None`, and no
    /// change, where an endpoint is not a node of the graph.
    pub fn add_edge(&mut self, from: NodeId, to: NodeId, data: E) -> (r: Option<EdgeId>)
        requires
            old(self).wf(),
        ensures
            final(self).wf(),
            final(self).nodes_view() == old(self).nodes_view(),
            final(self).next_id() == old(self).next_id(),
            r.is_some() == (old(self).node_seq().contains(from) && old(self).node_seq().contains(to)),
            r.is_none() ==> final(self).edges_view() == old(self).edges_view(),
            r.is_some() ==> r == Some(EdgeId(from, to)),
            r.is_some() && !old(self).edge_seq().contains(EdgeId(from, to)) ==> final(self).edges_view()
                == old(self).edges_view().push((EdgeId(from, to), data)),
            r.is_some() && old(self).edge_seq().contains(EdgeId(from, to)) ==> exists|i: int|
                0 <= i < old(self).edges_view().len() && old(self).edge_seq()[i] == EdgeId(from, to)
                    && final(self).edges_view() == old(self).edges_view().update(
                    i,
                    (EdgeId(from, to), data),
                ),
    {
        let fi = self.node_index(from);
        let ti = self.node_index(to);
        if fi.is_none() || ti.is_none() {
            return None;
        }
        proof {
            assert(self.node_seq()[fi.unwrap() as int] == from);
            assert(self.node_seq()[ti.unwrap() as int] == to);
        }
        let id = EdgeId(from, to);
        match self.edge_index(id) {
            Some(i) => {
                self.edges.set(i, (id, data));
                proof {
                    assert(self.edge_seq() =~= old(self).edge_seq());
                    assert(self.node_seq() =~= old(self).node_seq());
                }
            },
            None => {
                self.edges.push((id, data));
                proof {
                    assert(self.edge_seq() =~= old(self).edge_seq().push(id));
                    assert(self.node_seq() =~= old(self).node_seq());
                    assert forall|e: int| 0 <= e < self.edge_seq().len() implies {
                        &&& self.node_seq().contains(#[trigger] self.edge_seq()[e].0)
                        &&& self.node_seq().contains(self.edge_seq()[e].1)
                    } by {
                        if e < old(self).edge_seq().len() {
                            assert(self.edge_seq()[e] == old(self).edge_seq()[e]);
                            assert(old(self).node_seq().contains(old(self).edge_seq()[e].0));
                            assert(old(self).node_seq().contains(old(self).edge_seq()[e].1));
                        } else {
                            assert(self.edge_seq()[e] == id);
                            assert(self.node_seq()[fi.unwrap() as int] == from);
                            assert(self.node_seq()[ti.unwrap() as int] == to);
                        }
                    }
                    assert forall|p: int, q: int|
                        0 <= p < self.edge_seq().len() && 0 <= q < self.edge_seq().len() && p != q implies self.edge_seq()[p]
                        != self.edge_seq()[q] by {
                        if p < old(self).edge_seq().len() && q < old(self).edge_seq().len() {
                        } else if p < old(self).edge_seq().len() {
                            assert(old(self).edge_seq()[p] != id);
                        } else if q < old(self).edge_seq().len() {
                            assert(old(self).edge_seq()[q] != id);
                        }
                    }
                    assert(old(self).node_seq().no_duplicates());
                    assert(self.node_seq().no_duplicates());
                    assert(self.edge_seq().no_duplicates());
                }
            },
        }
        Some(id)
    }

    /// Removes edge `id` and returns its data; `None`, and no change, where
    /// it is not an edge of the graph.
    pub fn remove_edge(&mut self, id: EdgeId) -> (r: Option<E>)
        requires
            old(self).wf(),
        ensures
            final(self).wf(),
            final(self).nodes_view() == old(self).nodes_view(),
            final(self).next_id() == old(self).next_id(),
            r.is_some() == old(self).edge_seq().contains(id),
            r.is_none() ==> final(self).edges_view() == old(self).edges_view(),
            r.is_some() ==> exists|i: int|
                0 <= i < old(self).edges_view().len() && old(self).edges_view()[i].0 == id && r == Some(
                    old(self).edges_view()[i].1,
                ) && final(self).edges_view() == old(self).edges_view().remove(i),
    {
        match self.edge_index(id) {
            Some(i) => {
                let (_, data) = self.edges.remove(i);
                proof {
                    assert(self.edge_seq() =~= old(self).edge_seq().remove(i as int));
                    assert(self.node_seq() =~= old(self).node_seq());
                    assert(old(self).edge_seq()[i as int] == id);
                    assert forall|e: int| 0 <= e < self.edge_seq().len() implies {
                        &&& self.node_seq().contains(#[trigger] self.edge_seq()[e].0)
                        &&& self.node_seq().contains(self.edge_seq()[e].1)
                    } by {
                        if e < i {
                            assert(self.edge_seq()[e] == old(self).edge_seq()[e]);
                        } else {
                            assert(self.edge_seq()[e] == old(self).edge_seq()[e + 1]);
                        }
                    }
                }
                Some(data)
            },
            None => None,
        }
    }

    /// Removes node `id` and every edge that touches it, and returns the
    /// node's data; `None`, and no change, where it is not a node of the
    /// graph.
    pub fn remove_node(&mut self, id: NodeId) -> (r: Option<N>)
        requires
            old(self).wf(),
        ensures
            final(self).wf(),
            final(self).next_id() == old(self).next_id(),
            r.is_some() == old(self).node_seq().contains(id),
            r.is_none() ==> final(self).nodes_view() == old(self).nodes_view() && final(self).edges_view()
                == old(self).edges_view(),
            r.is_some() ==> exists|i: int|
                0 <= i < old(self).nodes_view().len() && old(self).nodes_view()[i].0 == id && r == Some(
                    old(self).nodes_view()[i].1,
                ) && final(self).nodes_view() == old(self).nodes_view().remove(i),
            r.is_some() ==> final(self).edges_view() == edges_apart(old(self).edges_view(), id),
    {
        let q = match self.node_index(id) {
            Some(q) => q,
            None => {
                return None;
            },
        };
        let ghost orig = self.edges@;
        let mut k: usize = 0;
        let ghost mut j: int = 0;
        while k < self.edges.len()
            invariant
                0 <= j <= orig.len(),
                self.edges@ == edges_apart(orig.take(j), id) + orig.skip(j),
                k == edges_apart(orig.take(j), id).len(),
                self.nodes@ == old(self).nodes@,
                self.next_id == old(self).next_id,
            decreases self.edges@.len() - k,
        {
            let ghost kept = edges_apart(orig.take(j), id);
            proof {
                assert(self.edges@[k as int] == orig[j]) by {
                    assert(self.edges@[k as int] == orig.skip(j)[0]);
                }
                assert(orig.take(j + 1).drop_last() =~= orig.take(j));
                assert(orig.take(j + 1).last() == orig[j]);
                assert(orig.skip(j) =~= seq![orig[j]] + orig.skip(j + 1));
            }
            let e = self.edges[k].0;
            if e.0 == id || e.1 == id {
                self.edges.remove(k);
                proof {
                    assert(self.edges@ =~= kept + orig.skip(j + 1));
                }
            } else {
                k = k + 1;
                proof {
                    assert(self.edges@ =~= kept.push(orig[j]) + orig.skip(j + 1));
                }
            }
            proof {
                j = j + 1;
            }
        }
        proof {
            assert(orig.take(j) =~= orig) by {
                assert(orig.skip(j).len() == 0);
            }
            assert(self.edges@ =~= edges_apart(orig, id));
        }
        let (_, data) = self.nodes.remove(q);
        proof {
            let on = old(self).node_seq();
            assert(self.node_seq() =~= on.remove(q as int));
            assert(on[q as int] == id);
            lemma_edges_apart_ids_unique(orig, id);
            assert(self.edge_seq() =~= edges_apart(orig, id).map_values(|e: (EdgeId, E)| e.0));
            assert forall|e: int| 0 <= e < self.edge_seq().len() implies {
                &&& self.node_seq().contains(#[trigger] self.edge_seq()[e].0)
                &&& self.node_seq().contains(self.edge_seq()[e].1)
            } by {
                let entry = self.edges@[e];
                assert(edges_apart(orig, id).contains(entry));
                lemma_edges_apart_contains(orig, id, entry);
                let w = choose|w: int| 0 <= w < orig.len() && orig[w] == entry;
                assert(old(self).edge_seq()[w] == entry.0);
                let a = choose|a: int| 0 <= a < on.len() && on[a] == entry.0.0;
                let b = choose|b: int| 0 <= b < on.len() && on[b] == entry.0.1;
                assert(a != q && b != q);
                if a < q {
                    assert(self.node_seq()[a] == entry.0.0);
                } else {
                    assert(self.node_seq()[a - 1] == entry.0.0);
                }
                if b < q {
                    assert(self.node_seq()[b] == entry.0.1);
                } else {
                    assert(self.node_seq()[b - 1] == entry.0.1);
                }
            }
            assert forall|i: int| 0 <= i < self.node_seq().len() implies (#[trigger] self.node_seq()[i]).0
                < self.next_id() by {
                if i < q {
                    assert(self.node_seq()[i] == on[i]);
                } else {
                    assert(self.node_seq()[i] == on[i + 1]);
                }
            }
        }
        Some(data)
    }

    /// The edges leaving node `id`: target and data, in edge order.
    pub fn outgoing(&self, id: NodeId) -> (r: Vec<Adjacement<&E>>)
        ensures
            r@.map_values(|a: Adjacement<&E>| (a.target, *a.data)) == outgoing_of(self.edges_view(), id),
    {
        let mut r: Vec<Adjacement<&E>> = Vec::new();
        let mut i: usize = 0;
        while i < self.edges.len()
            invariant
                i <= self.edges@.len(),
                r@.map_values(|a: Adjacement<&E>| (a.target, *a.data)) == outgoing_of(
                    self.edges@.take(i as int),
                    id,
                ),
            decreases self.edges@.len() - i,
        {
            proof {
                assert(self.edges@.take(i + 1).drop_last() =~= self.edges@.take(i as int));
            }
            let entry = &self.edges[i];
            if (entry.0).0 == id {
                let ghost before = r@;
                r.push(Adjacement { target: (entry.0).1, data: &entry.1 });
                proof {
                    assert(r@.map_values(|a: Adjacement<&E>| (a.target, *a.data)) =~= before.map_values(
                        |a: Adjacement<&E>| (a.target, *a.data),
                    ).push(((entry.0).1, entry.1)));
                }
            }
            i = i + 1;
        }
        assert(self.edges@.take(i as int) =~= self.edges@);
        r
    }
}

impl<N, E> Graph for NoteGraph<N, E> {
    type NodeData = N;

    type EdgeData = E;

    open spec fn node_seq(&self) -> Seq<NodeId> {
        self.nodes_view().map_values(|e: (NodeId, N)| e.0)
    }

    open spec fn node_entries(&self) -> Seq<(NodeId, N)> {
        self.nodes_view()
    }

    open spec fn edge_entries(&self) -> Seq<(EdgeId, E)> {
        self.edges_view()
    }

    open spec fn edge_seq(&self) -> Seq<EdgeId> {
        self.edges_view().map_values(|e: (EdgeId, E)| e.0)
    }

    fn iter_nodes(&self) -> (r: Vec<NodeId>) {
        let mut r: Vec<NodeId> = Vec::new();
        let mut i: usize = 0;
        while i < self.nodes.len()
            invariant
                i <= self.nodes@.len(),
                r@ == self.node_seq().take(i as int),
            decreases self.nodes@.len() - i,
        {
            r.push(self.nodes[i].0);
            i = i + 1;
            assert(r@ =~= self.node_seq().take(i as int));
        }
        assert(r@ =~= self.node_seq());
        r
    }

    fn iter_edges(&self) -> (r: Vec<EdgeId>) {
        let mut r: Vec<EdgeId> = Vec::new();
        let mut i: usize = 0;
        while i < self.edges.len()
            invariant
                i <= self.edges@.len(),
                r@ == self.edge_seq().take(i as int),
            decreases self.edges@.len() - i,
        {
            r.push(self.edges[i].0);
            i = i + 1;
            assert(r@ =~= self.edge_seq().take(i as int));
        }
        assert(r@ =~= self.edge_seq());
        r
    }

    fn iter_incidents(&self, id: NodeId) -> (r: Vec<EdgeId>) {
        let edges = self.iter_edges();
        edges_touching(&edges, id)
    }

    fn contains_node(&self, id: NodeId) -> (r: bool) {
        self.node_index(id).is_some()
    }

    fn get_node(&self, id: NodeId) -> (r: Option<&N>) {
        match self.node_index(id) {
            Some(i) => {
                assert(self.node_entries()[i as int] == (id, self.nodes@[i as int].1));
                Some(&self.nodes[i].1)
            },
            None => None,
        }
    }

    fn get_edge(&self, id: EdgeId) -> (r: Option<&E>) {
        match self.edge_index(id) {
            Some(i) => {
                assert(self.edge_entries()[i as int] == (id, self.edges@[i as int].1));
                Some(&self.edges[i].1)
            },
            None => None,
        }
    }

    fn get_edge_incidents(&self, id: EdgeId) -> (r: Option<EdgeIncidents<NodeId>>) {
        match self.edge_index(id) {
            Some(_) => Some(EdgeIncidents { node_from: id.0, node_to: id.1 }),
            None => None,
        }
    }
}

} // verus!
