//! Node, edge and id types of the graph built from note links.
use vstd::prelude::*;

use crate::path::canonicalize;

verus! {

/// Marker for the node data of a note graph.
pub trait ANode {

}

/// Marker for the edge data of a note graph.
pub trait AEdge {

}

/// A node of the link graph: the note or image a link points to.
#[derive(Clone, Copy, PartialEq, Eq, Structural, Debug)]
pub struct LinkNode {
    pub is_image: bool,
}

impl ANode for LinkNode {

}

/// A link from one note to another: its type (index of pulldown-cmark's
/// `LinkType`), text and title.
#[derive(Clone, Debug)]
pub struct LinkEdge {
    pub link_type: u8,
    pub text: String,
    pub title: String,
}

impl AEdge for LinkEdge {

}

/// The id of a node of the link graph: the normalized path of its note.
#[derive(Clone, Debug, PartialEq, Eq)]
pub struct LinkNodeId(pub String);

impl LinkNodeId {
    /// The id of the note at `path`: the path, normalized.
    pub fn from_path(path: &str) -> (r: Self)
        ensures
            r.0@ == crate::path::canonical(path@),
    {
        LinkNodeId(canonicalize(path))
    }
}

/// A numeric node id.
#[derive(Clone, Copy, PartialEq, Eq, Structural, Hash, Debug)]
pub struct ANodeId(pub usize);

/// An edge leaving a node: its target and data.
#[derive(Clone, Debug)]
pub struct AAdjacement<NodeId, Edge>(pub NodeId, pub Edge);

/// Which links become graph nodes: links to the web (`url`), images
/// (`image`), links to markdown notes (`markdown`).
#[derive(Clone, Copy, PartialEq, Eq, Structural, Debug, Default)]
pub struct Options {
    pub image: bool,
    pub url: bool,
    pub markdown: bool,
}

} // verus!
