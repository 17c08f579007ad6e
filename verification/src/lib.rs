//! Deciding d-separation between two nodes of a directed graph, given a set
//! of observed nodes.

pub mod graph;
pub mod separation;
pub mod text;
pub mod trail;

pub use graph::{Edge, Graph, Node, UnknownNode};
pub use separation::{d_separated, is_blocked};
pub use text::{is_blank, parse_edge, read_graph, Endpoint, ParseError};
