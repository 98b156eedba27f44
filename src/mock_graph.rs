//! A fixed dataset of nineteen notes and fifteen links, used before any
//! notes are read from disk.
use vstd::prelude::*;

use crate::graph::{EdgeId, EdgeIncidents, Graph, NodeId, edges_touching, well_formed};

verus! {

/// An RGBA color.
#[derive(Clone, Copy, PartialEq, Eq, Structural, Debug)]
pub struct Color {
    pub r: u8,
    pub g: u8,
    pub b: u8,
    pub a: u8,
}

/// The opaque color with the given channels.
pub open spec fn rgb(r: u8, g: u8, b: u8) -> Color {
    Color { r, g, b, a: 255 }
}

impl Color {
    /// The opaque color with the given channels.
    pub fn from_rgb(r: u8, g: u8, b: u8) -> (c: Color)
        ensures
            c == rgb(r, g, b),
    {
        Color { r, g, b, a: 255 }
    }
}

/// A line style: width in layout units and color.
#[derive(Clone, Copy, PartialEq, Eq, Structural, Debug)]
pub struct Stroke {
    pub width: u32,
    pub color: Color,
}

/// How a node is drawn.
#[derive(Clone, Copy, PartialEq, Eq, Structural, Debug)]
pub struct NodeData {
    pub radius: u32,
    pub fill: Color,
    pub stroke: Stroke,
}

impl NodeData {
    pub fn fill(&self) -> (r: Color)
        ensures
            r == self.fill,
    {
        self.fill
    }

    pub fn stroke(&self) -> (r: Stroke)
        ensures
            r == self.stroke,
    {
        self.stroke
    }

    pub fn radius(&self) -> (r: u32)
        ensures
            r == self.radius,
    {
        self.radius
    }
}

/// How an edge is drawn.
#[derive(Clone, Copy, PartialEq, Eq, Structural, Debug)]
pub struct EdgeData {
    pub stroke: Stroke,
}

impl EdgeData {
    pub fn stroke(&self) -> (r: Stroke)
        ensures
            r == self.stroke,
    {
        self.stroke
    }
}

pub const NODE_COUNT: usize = 19;

pub const EDGE_COUNT: usize = 15;

/// The `i`-th node of the dataset (ids count from one).
pub open spec fn mock_node(i: int) -> (NodeId, NodeData) {
    let stroke = Stroke { width: 2, color: if i == 1 { rgb(255, 0, 0) } else { rgb(255, 255, 255) } };
    if i < 2 {
        (NodeId((i + 1) as usize), NodeData { radius: 30, fill: rgb(255, 255, 255), stroke })
    } else {
        (NodeId((i + 1) as usize), NodeData { radius: 20, fill: rgb(0, 255, 0), stroke })
    }
}

/// The endpoints of the `i`-th edge of the dataset.
pub open spec fn mock_edge_ends(i: int) -> (usize, usize) {
    if i == 0 {
        (1, 2)
    } else if i == 1 {
        (2, 1)
    } else if i == 2 {
        (3, 1)
    } else if i == 3 {
        (5, 1)
    } else if i == 4 {
        (6, 1)
    } else if i == 5 {
        (8, 1)
    } else if i == 6 {
        (9, 1)
    } else if i == 7 {
        (10, 1)
    } else if i == 8 {
        (11, 1)
    } else if i == 9 {
        (12, 1)
    } else if i == 10 {
        (3, 9)
    } else if i == 11 {
        (7, 6)
    } else if i == 12 {
        (7, 3)
    } else if i == 13 {
        (1, 5)
    } else {
        (4, 2)
    }
}

/// The `i`-th edge of the dataset: the first ten are white, the rest red.
pub open spec fn mock_edge(i: int) -> (EdgeId, EdgeData) {
    let (a, b) = mock_edge_ends(i);
    let color = if i < 10 { rgb(255, 255, 255) } else { rgb(255, 0, 0) };
    (EdgeId(NodeId(a), NodeId(b)), EdgeData { stroke: Stroke { width: 2, color } })
}

/// The static dataset.
pub struct MockGraph {
    nodes: Vec<(NodeId, NodeData)>,
    edges: Vec<(EdgeId, EdgeData)>,
}

/// Iterates the nodes of a `MockGraph` in dataset order.
pub struct NodeIter<'a> {
    graph: &'a MockGraph,
    index: usize,
}

/// Iterates the edges of a `MockGraph` in dataset order.
pub struct EdgeIter<'a> {
    graph: &'a MockGraph,
    index: usize,
}

impl MockGraph {
    pub closed spec fn nodes_view(&self) -> Seq<(NodeId, NodeData)> {
        self.nodes@
    }

    pub closed spec fn edges_view(&self) -> Seq<(EdgeId, EdgeData)> {
        self.edges@
    }

    /// The dataset's nodes and edges, in dataset order.
    pub fn new() -> (r: Self)
        ensures
            r.nodes_view() == Seq::new(NODE_COUNT as nat, |i: int| mock_node(i)),
            r.edges_view() == Seq::new(EDGE_COUNT as nat, |i: int| mock_edge(i)),
            well_formed(&r),
    {
        let mut nodes: Vec<(NodeId, NodeData)> = Vec::new();
        let mut i: usize = 0;
        while i < NODE_COUNT
            invariant
                i <= NODE_COUNT,
                nodes@ == Seq::new(i as nat, |j: int| mock_node(j)),
            decreases NODE_COUNT - i,
        {
            let color = if i == 1 {
                Color::from_rgb(255, 0, 0)
            } else {
                Color::from_rgb(255, 255, 255)
            };
            let stroke = Stroke { width: 2, color };
            let data = if i < 2 {
                NodeData { radius: 30, fill: Color::from_rgb(255, 255, 255), stroke }
            } else {
                NodeData { radius: 20, fill: Color::from_rgb(0, 255, 0), stroke }
            };
            nodes.push((NodeId(i + 1), data));
            i = i + 1;
            assert(nodes@ =~= Seq::new(i as nat, |j: int| mock_node(j)));
        }
        let ends: [(usize, usize); 15] = [
            (1, 2),
            (2, 1),
            (3, 1),
            (5, 1),
            (6, 1),
            (8, 1),
            (9, 1),
            (10, 1),
            (11, 1),
            (12, 1),
            (3, 9),
            (7, 6),
            (7, 3),
            (1, 5),
            (4, 2),
        ];
        assert(ends@ =~= Seq::new(EDGE_COUNT as nat, |j: int| mock_edge_ends(j)));
        let mut edges: Vec<(EdgeId, EdgeData)> = Vec::new();
        let mut k: usize = 0;
        while k < EDGE_COUNT
            invariant
                k <= EDGE_COUNT,
                ends@ == Seq::new(EDGE_COUNT as nat, |j: int| mock_edge_ends(j)),
                edges@ == Seq::new(k as nat, |j: int| mock_edge(j)),
            decreases EDGE_COUNT - k,
        {
            let (a, b) = ends[k];
            let color = if k < 10 {
                Color::from_rgb(255, 255, 255)
            } else {
                Color::from_rgb(255, 0, 0)
            };
            edges.push((EdgeId(NodeId(a), NodeId(b)), EdgeData { stroke: Stroke { width: 2, color } }));
            k = k + 1;
            assert(edges@ =~= Seq::new(k as nat, |j: int| mock_edge(j)));
        }
        let r = MockGraph { nodes, edges };
        proof {
            lemma_mock_well_formed(&r);
        }
        r
    }

    /// An iterator over the nodes, starting at the first.
    pub fn node_iter(&self) -> (r: NodeIter<'_>)
        ensures
            r.source() == self,
            r.position() == 0,
    {
        NodeIter { graph: self, index: 0 }
    }

    /// An iterator over the edges, starting at the first.
    pub fn edge_iter(&self) -> (r: EdgeIter<'_>)
        ensures
            r.source() == self,
            r.position() == 0,
    {
        EdgeIter { graph: self, index: 0 }
    }
}

impl<'a> NodeIter<'a> {
    pub closed spec fn position(&self) -> int {
        self.index as int
    }

    pub closed spec fn source(&self) -> &'a MockGraph {
        self.graph
    }

    /// The next node and its data; `None` once every node was returned.
    pub fn next(&mut self) -> (r: Option<(NodeId, &'a NodeData)>)
        ensures
            final(self).source() == old(self).source(),
            old(self).position() < old(self).source().nodes_view().len() ==> {
                &&& final(self).position() == old(self).position() + 1
                &&& r == Some(
                    (
                        old(self).source().nodes_view()[old(self).position()].0,
                        &old(self).source().nodes_view()[old(self).position()].1,
                    ),
                )
            },
            old(self).position() >= old(self).source().nodes_view().len() ==> {
                &&& final(self).position() == old(self).position()
                &&& r.is_none()
            },
    {
        if self.index < self.graph.nodes.len() {
            let entry = &self.graph.nodes[self.index];
            self.index = self.index + 1;
            Some((entry.0, &entry.1))
        } else {
            None
        }
    }
}

impl<'a> EdgeIter<'a> {
    pub closed spec fn position(&self) -> int {
        self.index as int
    }

    pub closed spec fn source(&self) -> &'a MockGraph {
        self.graph
    }

    /// The next edge and its data; `None` once every edge was returned.
    pub fn next(&mut self) -> (r: Option<(EdgeId, &'a EdgeData)>)
        ensures
            final(self).source() == old(self).source(),
            old(self).position() < old(self).source().edges_view().len() ==> {
                &&& final(self).position() == old(self).position() + 1
                &&& r == Some(
                    (
                        old(self).source().edges_view()[old(self).position()].0,
                        &old(self).source().edges_view()[old(self).position()].1,
                    ),
                )
            },
            old(self).position() >= old(self).source().edges_view().len() ==> {
                &&& final(self).position() == old(self).position()
                &&& r.is_none()
            },
    {
        if self.index < self.graph.edges.len() {
            let entry = &self.graph.edges[self.index];
            self.index = self.index + 1;
            Some((entry.0, &entry.1))
        } else {
            None
        }
    }
}

/// The dataset has unique node ids and every edge joins two of its nodes.
proof fn lemma_mock_well_formed(r: &MockGraph)
    requires
        r.nodes_view() == Seq::new(NODE_COUNT as nat, |i: int| mock_node(i)),
        r.edges_view() == Seq::new(EDGE_COUNT as nat, |i: int| mock_edge(i)),
    ensures
        well_formed(r),
{
        assert forall|j: int| 0 <= j < NODE_COUNT implies #[trigger] r.node_seq()[j] == NodeId(
            (j + 1) as usize,
        ) by {}
        assert forall|p: int, q: int|
            0 <= p < r.node_seq().len() && 0 <= q < r.node_seq().len() && p != q implies r.node_seq()[p]
            != r.node_seq()[q] by {}
        assert(r.node_seq().no_duplicates());
        assert forall|e: int| 0 <= e < r.edge_seq().len() implies {
            &&& r.node_seq().contains(#[trigger] r.edge_seq()[e].0)
            &&& r.node_seq().contains(r.edge_seq()[e].1)
        } by {
            let (a, b) = mock_edge_ends(e);
            assert(1 <= a <= 19 && 1 <= b <= 19);
            assert(r.edge_seq()[e] == EdgeId(NodeId(a), NodeId(b)));
            assert(r.node_seq()[a - 1] == NodeId(a));
            assert(r.node_seq()[b - 1] == NodeId(b));
        }
        assert(well_formed(r));
    }

impl Graph for MockGraph {
    type NodeData = NodeData;

    type EdgeData = EdgeData;

    open spec fn node_seq(&self) -> Seq<NodeId> {
        self.nodes_view().map_values(|e: (NodeId, NodeData)| e.0)
    }

    open spec fn node_entries(&self) -> Seq<(NodeId, NodeData)> {
        self.nodes_view()
    }

    open spec fn edge_entries(&self) -> Seq<(EdgeId, EdgeData)> {
        self.edges_view()
    }

    open spec fn edge_seq(&self) -> Seq<EdgeId> {
        self.edges_view().map_values(|e: (EdgeId, EdgeData)| e.0)
    }

    fn iter_nodes(&self) -> (r: Vec<NodeId>) {
        let mut r: Vec<NodeId> = Vec::new();
        let mut i: usize = 0;
        while i < self.nodes.len()
            invariant
                i <= self.nodes@.len(),
                r@ == self.node_seq().take(i as int),
            decreases self.nodes@.len() - i,
        {
            r.push(self.nodes[i].0);
            i = i + 1;
            assert(r@ =~= self.node_seq().take(i as int));
        }
        assert(r@ =~= self.node_seq());
        r
    }

    fn iter_edges(&self) -> (r: Vec<EdgeId>) {
        let mut r: Vec<EdgeId> = Vec::new();
        let mut i: usize = 0;
        while i < self.edges.len()
            invariant
                i <= self.edges@.len(),
                r@ == self.edge_seq().take(i as int),
            decreases self.edges@.len() - i,
        {
            r.push(self.edges[i].0);
            i = i + 1;
            assert(r@ =~= self.edge_seq().take(i as int));
        }
        assert(r@ =~= self.edge_seq());
        r
    }

    fn iter_incidents(&self, id: NodeId) -> (r: Vec<EdgeId>) {
        let edges = self.iter_edges();
        edges_touching(&edges, id)
    }

    fn contains_node(&self, id: NodeId) -> (r: bool) {
        self.get_node(id).is_some()
    }

    fn get_node(&self, id: NodeId) -> (r: Option<&NodeData>) {
        let mut i: usize = 0;
        while i < self.nodes.len()
            invariant
                i <= self.nodes@.len(),
                forall|j: int| 0 <= j < i ==> self.node_seq()[j] != id,
            decreases self.nodes@.len() - i,
        {
            if self.nodes[i].0 == id {
                assert(self.node_seq()[i as int] == id);
                assert(self.node_entries()[i as int] == (id, self.nodes@[i as int].1));
                return Some(&self.nodes[i].1);
            }
            i = i + 1;
        }
        None
    }

    fn get_edge(&self, id: EdgeId) -> (r: Option<&EdgeData>) {
        let mut i: usize = 0;
        while i < self.edges.len()
            invariant
                i <= self.edges@.len(),
                forall|j: int| 0 <= j < i ==> self.edge_seq()[j] != id,
            decreases self.edges@.len() - i,
        {
            if self.edges[i].0 == id {
                assert(self.edge_seq()[i as int] == id);
                assert(self.edge_entries()[i as int] == (id, self.edges@[i as int].1));
                return Some(&self.edges[i].1);
            }
            i = i + 1;
        }
        None
    }

    fn get_edge_incidents(&self, id: EdgeId) -> (r: Option<EdgeIncidents<NodeId>>) {
        match self.get_edge(id) {
            Some(_) => Some(EdgeIncidents { node_from: id.0, node_to: id.1 }),
            None => None,
        }
    }
}

} // verus!
