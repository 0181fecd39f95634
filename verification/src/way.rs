//! Map elements: nodes at block positions, and ways through them with tags.
use vstd::prelude::*;
use crate::tags::Tags;

verus! {

/// A map node, placed at block column `(x, z)`.
#[derive(Clone, Copy, PartialEq, Eq, Structural, Debug)]
pub struct ProcessedNode {
    pub id: u64,
    pub x: i32,
    pub z: i32,
}

/// A way: a path through nodes, with the tags of the element.
pub struct ProcessedWay {
    pub id: u64,
    pub nodes: Vec<ProcessedNode>,
    pub tags: Tags,
}

} // verus!
