//! The blocks that the structures are built of, and where they go.
use vstd::prelude::*;

verus! {

/// A kind of block.
#[derive(Clone, Copy, PartialEq, Eq, Structural, Debug)]
pub enum Block {
    LightGrayConcrete,
    StoneBricks,
    StoneBrickWall,
    Gravel,
    OakLog,
    IronBlock,
    RailNorthSouth,
    RailEastWest,
    RailNorthEast,
    RailNorthWest,
    RailSouthEast,
    RailSouthWest,
}

/// One block to set in the world. With `above_ground` the height `y` counts from
/// the ground level at `(x, z)`; without it, `y` is absolute. A block is only set
/// where the world has none yet, so earlier placements win.
#[derive(Clone, Copy, PartialEq, Eq, Structural, Debug)]
pub struct Placement {
    pub block: Block,
    pub x: i32,
    pub y: i32,
    pub z: i32,
    pub above_ground: bool,
}

/// A block at an absolute height.
pub open spec fn at(block: Block, x: int, y: int, z: int) -> Placement {
    Placement { block, x: x as i32, y: y as i32, z: z as i32, above_ground: false }
}

/// A block at a height above the ground.
pub open spec fn above(block: Block, x: int, y: int, z: int) -> Placement {
    Placement { block, x: x as i32, y: y as i32, z: z as i32, above_ground: true }
}

} // verus!
