//! Buildings as they stand in a stream: roots and blocks in two flat lists,
//! every block with the index of its root, and every link a block's index in
//! the list of blocks.

use vstd::prelude::*;
use crate::block::{Block, BlockView};

verus! {

/// The record of a root: position and rotation, singles held as their bits.
#[derive(Debug, Clone, Copy, PartialEq, Eq)]
pub struct SerializableRoot {
    pub position: [u32; 3],
    pub rotation: [u32; 3],
}

/// The record of a block: the index of its root, and the block with links
/// that are indices.
#[derive(Debug, PartialEq, Eq)]
pub struct SerializableBlock {
    pub root: u16,
    pub block: Block<u16>,
}

/// The mathematical value of a block's record.
pub struct BlockRecord {
    pub root: u16,
    pub block: BlockView<u16>,
}

impl View for SerializableBlock {
    type V = BlockRecord;

    open spec fn view(&self) -> BlockRecord {
        BlockRecord { root: self.root, block: self.block@ }
    }
}

/// The views of a sequence of block records.
pub open spec fn block_records(blocks: Seq<SerializableBlock>) -> Seq<BlockRecord> {
    blocks.map_values(|b: SerializableBlock| b@)
}

/// A building as two flat lists.
#[derive(Debug, PartialEq, Eq)]
pub struct SerializableBuilding {
    pub roots: Vec<SerializableRoot>,
    pub blocks: Vec<SerializableBlock>,
}

/// The mathematical value of a building as two flat lists.
pub struct BuildingRecord {
    pub roots: Seq<SerializableRoot>,
    pub blocks: Seq<BlockRecord>,
}

impl View for SerializableBuilding {
    type V = BuildingRecord;

    open spec fn view(&self) -> BuildingRecord {
        BuildingRecord { roots: self.roots@, blocks: block_records(self.blocks@) }
    }
}

} // verus!
