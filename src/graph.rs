//! The generic graph interface shared by every concrete dataset.
use vstd::prelude::*;

verus! {

/// Identifier of a node, unique within one graph.
#[derive(Clone, Copy, PartialEq, Eq, Structural, Hash, Debug)]
pub struct NodeId(pub usize);

/// Identifier of an edge: the ordered pair of the nodes it joins.
#[derive(Clone, Copy, PartialEq, Eq, Structural, Hash, Debug)]
pub struct EdgeId(pub NodeId, pub NodeId);

/// The two endpoints of an edge.
#[derive(Clone, Copy, PartialEq, Eq, Structural, Debug)]
pub struct EdgeIncidents<T> {
    pub node_from: T,
    pub node_to: T,
}

/// The endpoints that an edge id names.
pub open spec fn incidents_of(id: EdgeId) -> EdgeIncidents<NodeId> {
    EdgeIncidents { node_from: id.0, node_to: id.1 }
}

/// Node ids are unique and every edge joins two nodes of the graph.
pub open spec fn well_formed<G: Graph>(g: &G) -> bool {
    &&& g.node_seq().no_duplicates()
    &&& forall|i: int|
        0 <= i < g.edge_seq().len() ==> {
            &&& g.node_seq().contains(#[trigger] g.edge_seq()[i].0)
            &&& g.node_seq().contains(g.edge_seq()[i].1)
        }
}

/// The edges of `edges` that have `id` as an endpoint, in order.
pub open spec fn touching(edges: Seq<EdgeId>, id: NodeId) -> Seq<EdgeId>
    decreases edges.len(),
{
    if edges.len() == 0 {
        edges
    } else {
        let p = touching(edges.drop_last(), id);
        if edges.last().0 == id || edges.last().1 == id {
            p.push(edges.last())
        } else {
            p
        }
    }
}

/// The edges of `edges` that have `id` as an endpoint, in order.
pub fn edges_touching(edges: &Vec<EdgeId>, id: NodeId) -> (r: Vec<EdgeId>)
    ensures
        r@ == touching(edges@, id),
{
    let mut r: Vec<EdgeId> = Vec::new();
    let mut i: usize = 0;
    while i < edges.len()
        invariant
            i <= edges@.len(),
            r@ == touching(edges@.take(i as int), id),
        decreases edges@.len() - i,
    {
        proof {
            assert(edges@.take(i + 1).drop_last() =~= edges@.take(i as int));
        }
        let e = edges[i];
        if e.0 == id || e.1 == id {
            r.push(e);
        }
        i = i + 1;
    }
    assert(edges@.take(i as int) =~= edges@);
    r
}

/// A read-only view of a graph: its nodes and edges in a fixed iteration
/// order, and lookups by id.
pub trait Graph {
    type NodeData;

    type EdgeData;

    /// The node ids, in iteration order.
    spec fn node_seq(&self) -> Seq<NodeId>;

    /// The edge ids, in iteration order.
    spec fn edge_seq(&self) -> Seq<EdgeId>;

    /// Each node's id and data, in iteration order.
    spec fn node_entries(&self) -> Seq<(NodeId, Self::NodeData)>;

    /// Each edge's id and data, in iteration order.
    spec fn edge_entries(&self) -> Seq<(EdgeId, Self::EdgeData)>;

    /// The node ids, in iteration order.
    fn iter_nodes(&self) -> (r: Vec<NodeId>)
        ensures
            r@ == self.node_seq(),
    ;

    /// The edge ids, in iteration order.
    fn iter_edges(&self) -> (r: Vec<EdgeId>)
        ensures
            r@ == self.edge_seq(),
    ;

    /// The edges that have `id` as an endpoint, in iteration order.
    fn iter_incidents(&self, id: NodeId) -> (r: Vec<EdgeId>)
        ensures
            r@ == touching(self.edge_seq(), id),
    ;

    /// Whether `id` is a node of this graph.
    fn contains_node(&self, id: NodeId) -> (r: bool)
        ensures
            r == self.node_seq().contains(id),
    ;

    /// The data of node `id`; `None` for an id that is not in this graph.
    fn get_node(&self, id: NodeId) -> (r: Option<&Self::NodeData>)
        ensures
            r.is_some() == self.node_seq().contains(id),
            r matches Some(d) ==> exists|i: int|
                0 <= i < self.node_entries().len() && self.node_entries()[i] == (id, *d),
    ;

    /// The data of edge `id`; `None` for an id that is not in this graph.
    fn get_edge(&self, id: EdgeId) -> (r: Option<&Self::EdgeData>)
        ensures
            r.is_some() == self.edge_seq().contains(id),
            r matches Some(d) ==> exists|i: int|
                0 <= i < self.edge_entries().len() && self.edge_entries()[i] == (id, *d),
    ;

    /// The endpoints of edge `id`; `None` for an id that is not in this graph.
    fn get_edge_incidents(&self, id: EdgeId) -> (r: Option<EdgeIncidents<NodeId>>)
        ensures
            r == (if self.edge_seq().contains(id) {
                Some(incidents_of(id))
            } else {
                None
            }),
    ;
}

} // verus!
