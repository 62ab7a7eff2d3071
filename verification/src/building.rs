//! Buildings: ordered roots, and the places of blocks in them.

use vstd::prelude::*;
use crate::block::{Block, BlockRef};
use crate::error::{CodecError, DecodeError};
use crate::io::read::{parse_building, read_building};
use crate::io::write::{building_bytes, encodable, write_building};
use crate::links::map_blocks;
use crate::root::{root_views, Root, RootView};

verus! {

/// A building: its roots in order. The order of the roots, and of the blocks
/// in each, is the order in which they are numbered when written.
#[derive(Debug, PartialEq, Eq)]
pub struct Building {
    pub roots: Vec<Root>,
}

/// The mathematical value of a building.
pub struct BuildingView {
    pub roots: Seq<RootView>,
}

impl View for Building {
    type V = BuildingView;

    open spec fn view(&self) -> BuildingView {
        BuildingView { roots: root_views(self.roots@) }
    }
}

/// The number of blocks in the first `k` roots.
pub open spec fn blocks_before(roots: Seq<RootView>, k: int) -> nat
    decreases k,
{
    if k <= 0 {
        0
    } else {
        blocks_before(roots, k - 1) + roots[k - 1].blocks.len()
    }
}

/// The number of blocks grows with the number of roots counted.
pub proof fn lemma_blocks_before_grows(roots: Seq<RootView>, j: int, k: int)
    requires
        j <= k,
    ensures
        blocks_before(roots, j) <= blocks_before(roots, k),
    decreases k - j,
{
    if j < k {
        lemma_blocks_before_grows(roots, j, k - 1);
    }
}

impl BuildingView {
    /// The number of blocks in all roots.
    pub open spec fn total_blocks(self) -> nat {
        blocks_before(self.roots, self.roots.len() as int)
    }

    /// The link points to a block of the building.
    pub open spec fn has_block(self, link: BlockRef) -> bool {
        link.root < self.roots.len() && link.block < self.roots[link.root as int].blocks.len()
    }

    /// The rule that keeps the links to blocks of the building and drops the
    /// others.
    pub open spec fn keep_present(self) -> spec_fn(BlockRef) -> Option<BlockRef> {
        |link: BlockRef|
            if self.has_block(link) {
                Some(link)
            } else {
                None
            }
    }

    /// The building without the links that point to no block of it.
    pub open spec fn pruned(self) -> BuildingView {
        BuildingView {
            roots: Seq::new(
                self.roots.len(),
                |i: int|
                    RootView {
                        position: self.roots[i].position,
                        rotation: self.roots[i].rotation,
                        blocks: map_blocks(self.roots[i].blocks, self.keep_present()),
                    },
            ),
        }
    }
}

impl Default for Building {
    fn default() -> (building: Self)
        ensures
            building@.roots == Seq::<RootView>::empty(),
    {
        Building::new()
    }
}

impl Building {
    /// A building without roots.
    pub fn new() -> (building: Self)
        ensures
            building@.roots == Seq::<RootView>::empty(),
    {
        let building = Building { roots: Vec::new() };
        assert(building@.roots =~= Seq::empty());
        building
    }

    /// Adds a root as the building's last and returns its index.
    pub fn add_root(&mut self, root: Root) -> (index: usize)
        ensures
            index == old(self)@.roots.len(),
            final(self)@.roots == old(self)@.roots.push(root@),
    {
        let index = self.roots.len();
        self.roots.push(root);
        assert(root_views(self.roots@) =~= root_views(old(self).roots@).push(root@));
        index
    }

    /// The block that a link points to, or nothing where the building has no
    /// such block.
    pub fn block(&self, link: BlockRef) -> (r: Option<&Block>)
        ensures
            match r {
                Some(block) => self@.has_block(link) && block@
                    == self@.roots[link.root as int].blocks[link.block as int],
                None => !self@.has_block(link),
            },
    {
        if link.root < self.roots.len() && link.block < self.roots[link.root].blocks.len() {
            Some(&self.roots[link.root].blocks[link.block])
        } else {
            None
        }
    }

    /// Adds a deep copy of the root at `index` as the building's last root and
    /// returns the copy's index; nothing is done where there is no such root.
    /// Links inside the root are links inside the copy; the copy's blocks
    /// have no links that lead out of it.
    pub fn clone_root(&mut self, index: usize) -> (copy: Option<usize>)
        ensures
            index < old(self)@.roots.len() ==> copy == Some(old(self)@.roots.len() as usize)
                && final(self)@.roots == old(self)@.roots.push(
                old(self)@.roots[index as int].transplanted(index, old(self)@.roots.len() as usize),
            ),
            index >= old(self)@.roots.len() ==> copy is None && final(self)@ == old(self)@,
    {
        if index < self.roots.len() {
            let to = self.roots.len();
            let root = self.roots[index].clone_remapped(index, to);
            Some(self.add_root(root))
        } else {
            None
        }
    }

    /// Appends the building to `out` as a stream of the given version; `out`
    /// stays as it was where the building cannot be written.
    pub fn write(&self, out: &mut Vec<u8>, version: u8) -> (r: Result<(), CodecError>)
        ensures
            match r {
                Ok(()) => encodable(self@) && final(out)@ == old(out)@ + building_bytes(
                    self@,
                    version,
                ),
                Err(e) => e == CodecError::FormatViolation && !encodable(self@) && final(out)@
                    == old(out)@,
            },
    {
        write_building(out, self, version)
    }

    /// Reads a building from the start of `data`.
    pub fn read(data: &[u8]) -> (r: Result<Building, DecodeError>)
        ensures
            match r {
                Ok(building) => parse_building(data@) == Ok::<BuildingView, DecodeError>(
                    building@,
                ),
                Err(e) => parse_building(data@) == Err::<BuildingView, DecodeError>(e),
            },
    {
        read_building(data)
    }

    /// The number of roots and the number of blocks in them.
    pub fn count_roots_and_blocks(&self) -> (counts: [usize; 2])
        requires
            self@.total_blocks() <= usize::MAX,
        ensures
            counts[0] == self@.roots.len(),
            counts[1] == self@.total_blocks(),
    {
        let mut blocks: usize = 0;
        let mut i: usize = 0;
        while i < self.roots.len()
            invariant
                i <= self.roots.len(),
                blocks == blocks_before(self@.roots, i as int),
                self@.total_blocks() <= usize::MAX,
            decreases self.roots.len() - i,
        {
            proof {
                lemma_blocks_before_grows(self@.roots, i + 1, self@.roots.len() as int);
            }
            blocks = blocks + self.roots[i].blocks.len();
            i += 1;
        }
        [self.roots.len(), blocks]
    }
}

} // verus!
