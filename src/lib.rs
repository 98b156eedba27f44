//! Basalt: notes organized as a graph and laid out by a force-directed
//! simulation.
//!
//! The crate holds the verified core of the layout engine and of the note
//! repository it draws from:
//! - `graph`: the graph interface; `mock_graph` and `note_graph` implement
//!   it, `link_graph` builds the graph of links between markdown notes;
//! - `positions`: the per-node layout store; `sync` aligns it with a graph;
//! - `fdp`: which store slots each pass of a force step touches;
//! - `interaction`: grabbing and dragging a node, and the integration step
//!   that leaves a dragged node to the pointer;
//! - `markdown`, `path`, `text`: links of a note, lexical paths, text
//!   comparisons;
//! - `vein`, `veins`, `note_data`, `models`: note repositories, their stored
//!   configuration values, the open note, and the link graph's types.
pub mod graph;
pub mod mock_graph;
pub mod note_graph;
pub mod link_graph;
pub mod models;
pub mod positions;
pub mod sync;
pub mod fdp;
pub mod interaction;
pub mod markdown;
pub mod path;
pub mod text;
pub mod vein;
pub mod veins;
pub mod note_data;
