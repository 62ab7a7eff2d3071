//! Roots: rigid groups of blocks.

use vstd::prelude::*;
use crate::block::{block_views, Block, BlockRef, BlockView};
use crate::links::{map_blocks, LinkMap};

verus! {

/// A part of a building that moves as one body. Position and rotation are
/// triples of IEEE-754 singles, held as their bits.
#[derive(Debug, PartialEq, Eq)]
pub struct Root {
    pub position: [u32; 3],
    pub rotation: [u32; 3],
    pub blocks: Vec<Block>,
}

/// The mathematical value of a root.
pub struct RootView {
    pub position: [u32; 3],
    pub rotation: [u32; 3],
    pub blocks: Seq<BlockView<BlockRef>>,
}

impl View for Root {
    type V = RootView;

    open spec fn view(&self) -> RootView {
        RootView {
            position: self.position,
            rotation: self.rotation,
            blocks: block_views(self.blocks@),
        }
    }
}

/// The views of a sequence of roots.
pub open spec fn root_views(roots: Seq<Root>) -> Seq<RootView> {
    roots.map_values(|r: Root| r@)
}

/// The rule by which the links of a root that stands at index `from` go over
/// to its copy at index `to`: a link to one of the root's own `count` blocks
/// points to the same block of the copy, and every other link is dropped.
pub open spec fn transplant(from: usize, to: usize, count: nat) -> spec_fn(BlockRef) -> Option<
    BlockRef,
> {
    |link: BlockRef|
        if link.root == from && link.block < count {
            Some(BlockRef { root: to, block: link.block })
        } else {
            None
        }
}

impl RootView {
    /// The copy of a root that stands at index `from`, made for index `to`.
    pub open spec fn transplanted(self, from: usize, to: usize) -> RootView {
        RootView {
            position: self.position,
            rotation: self.rotation,
            blocks: map_blocks(self.blocks, transplant(from, to, self.blocks.len())),
        }
    }
}

/// The executable form of `transplant`.
pub struct Transplant {
    pub from: usize,
    pub to: usize,
    pub count: usize,
}

impl LinkMap<BlockRef, BlockRef> for Transplant {
    open spec fn valid(&self) -> bool {
        true
    }

    open spec fn rule(&self) -> spec_fn(BlockRef) -> Option<BlockRef> {
        transplant(self.from, self.to, self.count as nat)
    }

    fn apply(&self, link: BlockRef) -> (r: Option<BlockRef>) {
        if link.root == self.from && link.block < self.count {
            Some(BlockRef { root: self.to, block: link.block })
        } else {
            None
        }
    }
}

impl Default for Root {
    fn default() -> (root: Self)
        ensures
            root@ == (RootView {
                position: [0u32, 0u32, 0u32],
                rotation: [0u32, 0u32, 0u32],
                blocks: Seq::empty(),
            }),
    {
        Root::new()
    }
}

impl Root {
    /// A root at the origin, unrotated and without blocks.
    pub fn new() -> (root: Self)
        ensures
            root@ == (RootView {
                position: [0u32, 0u32, 0u32],
                rotation: [0u32, 0u32, 0u32],
                blocks: Seq::empty(),
            }),
    {
        let root = Root {
            position: [0u32, 0u32, 0u32],
            rotation: [0u32, 0u32, 0u32],
            blocks: Vec::new(),
        };
        assert(root@.blocks =~= Seq::empty());
        root
    }

    /// Adds a block as the root's last and returns its index in the root.
    pub fn add_block(&mut self, block: Block) -> (index: usize)
        ensures
            index == old(self)@.blocks.len(),
            final(self)@ == (RootView {
                position: old(self)@.position,
                rotation: old(self)@.rotation,
                blocks: old(self)@.blocks.push(block@),
            }),
    {
        let index = self.blocks.len();
        self.blocks.push(block);
        assert(block_views(self.blocks@) =~= block_views(old(self).blocks@).push(block@));
        index
    }

    /// A deep copy of a root that stands at index `from` of its building, made
    /// to stand at index `to`. Links between the root's own blocks connect
    /// the same blocks of the copy; links that lead out of the root are
    /// dropped.
    pub fn clone_remapped(&self, from: usize, to: usize) -> (copy: Root)
        ensures
            copy@ == self@.transplanted(from, to),
    {
        let rule = Transplant { from, to, count: self.blocks.len() };
        let mut blocks: Vec<Block> = Vec::new();
        let mut i: usize = 0;
        while i < self.blocks.len()
            invariant
                i <= self.blocks.len(),
                blocks@.len() == i,
                rule.rule() == transplant(from, to, self.blocks@.len()),
                forall|j: int|
                    0 <= j < i ==> (#[trigger] blocks@[j])@ == crate::links::map_block(
                        self.blocks@[j]@,
                        rule.rule(),
                    ),
            decreases self.blocks.len() - i,
        {
            blocks.push(self.blocks[i].relink(&rule));
            i += 1;
        }
        let copy = Root { position: self.position, rotation: self.rotation, blocks };
        assert(copy@.blocks =~= self@.transplanted(from, to).blocks);
        copy
    }
}

} // verus!
