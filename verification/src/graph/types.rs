//! The graph of a program's topics, node by node.
use vstd::prelude::*;

use crate::progress::Status;

verus! {

/// A topic in the graph: its status and layer, what it depends on, what of
/// that is not done yet, and what depends on it.
#[derive(Debug, Clone, PartialEq, Eq)]
pub struct Node {
    pub id: String,
    pub title: String,
    pub status: Status,
    pub layer: usize,
    pub depends_on: Vec<String>,
    pub blocked_by: Vec<String>,
    pub unlocks: Vec<String>,
}

#[derive(Debug, Clone, PartialEq, Eq)]
pub struct Graph {
    pub nodes: Vec<Node>,
}

/// The statuses of the topics, by id.
#[derive(Debug, Clone, PartialEq, Eq)]
pub struct Statuses {
    pub known: Vec<(String, Status)>,
}

} // verus!
