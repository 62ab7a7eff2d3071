//! Numbering the roots and blocks of a building for a stream, and finding
//! the places of the blocks of a stream in a building.
//!
//! Roots are numbered in their order. Blocks are numbered across all roots:
//! first the blocks of the first root in their order, then those of the
//! second, and so on.

use vstd::prelude::*;
use crate::block::{block_views, Block, BlockRef, BlockView};
use crate::building::{blocks_before, lemma_blocks_before_grows, Building, BuildingView};
use crate::error::CodecError;
use crate::io::types::{block_records, BlockRecord, BuildingRecord, SerializableBlock};
use crate::io::types::{SerializableBuilding, SerializableRoot};
use crate::links::{
    chain, lemma_map_block_twice, map_block, map_blocks, map_links, map_load, LinkMap,
};
use crate::root::{Root, RootView};

verus! {

/// The rule that gives a link its number in the stream: the number of
/// blocks in the roots before the target's root, plus the target's index in
/// its root. A link to no block of the building is dropped.
pub open spec fn to_index(b: BuildingView) -> spec_fn(BlockRef) -> Option<u16> {
    |link: BlockRef|
        if b.has_block(link) {
            Some((blocks_before(b.roots, link.root as int) + link.block) as u16)
        } else {
            None
        }
}

/// The records of the blocks of root `r`.
pub open spec fn root_records(b: BuildingView, r: int) -> Seq<BlockRecord> {
    Seq::new(
        b.roots[r].blocks.len(),
        |j: int| BlockRecord { root: r as u16, block: map_block(b.roots[r].blocks[j], to_index(b)) },
    )
}

/// The records of the blocks of the first `k` roots.
pub open spec fn flat_blocks(b: BuildingView, k: int) -> Seq<BlockRecord>
    decreases k,
{
    if k <= 0 {
        Seq::empty()
    } else {
        flat_blocks(b, k - 1) + root_records(b, k - 1)
    }
}

/// The records of the roots.
pub open spec fn flat_roots(b: BuildingView) -> Seq<SerializableRoot> {
    Seq::new(
        b.roots.len(),
        |i: int| SerializableRoot { position: b.roots[i].position, rotation: b.roots[i].rotation },
    )
}

/// The building as two flat lists.
pub open spec fn flatten(b: BuildingView) -> BuildingRecord {
    BuildingRecord { roots: flat_roots(b), blocks: flat_blocks(b, b.roots.len() as int) }
}

/// Whether the roots and the blocks of a building can be numbered with 16
/// bits and counted with 16 bits: there are at most 65535 of each.
pub open spec fn indexable(b: BuildingView) -> bool {
    b.roots.len() <= 0xffff && b.total_blocks() <= 0xffff
}

/// The blocks with the given root among the first `n` records, in order.
pub open spec fn members(blocks: Seq<BlockRecord>, root: int, n: int) -> Seq<BlockView<u16>>
    decreases n,
{
    if n <= 0 {
        Seq::empty()
    } else {
        let init = members(blocks, root, n - 1);
        if blocks[n - 1].root == root {
            init.push(blocks[n - 1].block)
        } else {
            init
        }
    }
}

/// The place in its building of the block with the given number: its root,
/// and how many blocks of that root come before it.
pub open spec fn place_of(blocks: Seq<BlockRecord>, index: int) -> BlockRef {
    BlockRef {
        root: blocks[index].root as usize,
        block: members(blocks, blocks[index].root as int, index).len() as usize,
    }
}

/// The rule that gives a block's number its place. A number that no block
/// has is dropped.
pub open spec fn to_place(blocks: Seq<BlockRecord>) -> spec_fn(u16) -> Option<BlockRef> {
    |index: u16|
        if index < blocks.len() {
            Some(place_of(blocks, index as int))
        } else {
            None
        }
}

/// Every block names a root that the building has.
pub open spec fn owners_exist(rec: BuildingRecord) -> bool {
    forall|i: int| 0 <= i < rec.blocks.len() ==> (#[trigger] rec.blocks[i]).root < rec.roots.len()
}

/// The building that two flat lists stand for: every root with the blocks
/// that name it, in their order, and every link resolved to a place.
pub open spec fn unflatten(rec: BuildingRecord) -> BuildingView {
    BuildingView {
        roots: Seq::new(
            rec.roots.len(),
            |r: int|
                RootView {
                    position: rec.roots[r].position,
                    rotation: rec.roots[r].rotation,
                    blocks: map_blocks(
                        members(rec.blocks, r, rec.blocks.len() as int),
                        to_place(rec.blocks),
                    ),
                },
        ),
    }
}

/// Dangling links. A number that no block of a stream has leads to no
/// place: as a load it gives no load, and at the end of a list of links it
/// adds nothing to the list.
pub proof fn theorem_dangling_link(blocks: Seq<BlockRecord>, links: Seq<u16>, index: u16)
    requires
        index >= blocks.len(),
    ensures
        to_place(blocks)(index) is None,
        map_load(Some(index), to_place(blocks)) is None,
        map_links(links.push(index), to_place(blocks)) == map_links(links, to_place(blocks)),
{
    assert(links.push(index).drop_last() =~= links);
}

/// The flat list of the first `k` roots has all their blocks.
pub proof fn lemma_flat_blocks_len(b: BuildingView, k: int)
    requires
        0 <= k <= b.roots.len(),
    ensures
        flat_blocks(b, k).len() == blocks_before(b.roots, k),
    decreases k,
{
    if k > 0 {
        lemma_flat_blocks_len(b, k - 1);
    }
}

/// Block `j` of root `r` stands in the flat list at the number that
/// `to_index` gives it.
pub proof fn lemma_flat_blocks_at(b: BuildingView, k: int, r: int, j: int)
    requires
        0 <= r < k <= b.roots.len(),
        0 <= j < b.roots[r].blocks.len(),
    ensures
        blocks_before(b.roots, r) + j < flat_blocks(b, k).len(),
        flat_blocks(b, k)[blocks_before(b.roots, r) + j] == root_records(b, r)[j],
    decreases k,
{
    lemma_flat_blocks_len(b, k - 1);
    lemma_flat_blocks_len(b, k);
    if r < k - 1 {
        lemma_flat_blocks_at(b, k - 1, r, j);
    }
}

/// Every number below the number of blocks of the first `k` roots belongs to
/// a block of one of them.
pub proof fn lemma_locate(b: BuildingView, k: int, index: int) -> (place: (int, int))
    requires
        0 <= k <= b.roots.len(),
        0 <= index < blocks_before(b.roots, k),
    ensures
        0 <= place.0 < k,
        0 <= place.1 < b.roots[place.0].blocks.len(),
        index == blocks_before(b.roots, place.0) + place.1,
    decreases k,
{
    if index >= blocks_before(b.roots, k - 1) {
        (k - 1, index - blocks_before(b.roots, k - 1))
    } else {
        lemma_locate(b, k - 1, index)
    }
}

/// Among the first `n` records of the flat list, those of root `r` are the
/// first blocks of root `r`: none up to where the root's blocks start, then
/// one more with each record, and all of them from where they end.
pub proof fn lemma_members_of_flat(b: BuildingView, r: int, n: int)
    requires
        b.roots.len() <= 0x10000,
        0 <= r < b.roots.len(),
        0 <= n <= b.total_blocks(),
    ensures
        ({
            let start = blocks_before(b.roots, r) as int;
            let size = b.roots[r].blocks.len() as int;
            let count = if n <= start {
                0
            } else if n >= start + size {
                size
            } else {
                n - start
            };
            members(flat_blocks(b, b.roots.len() as int), r, n) == map_blocks(
                b.roots[r].blocks,
                to_index(b),
            ).take(count)
        }),
    decreases n,
{
    let total = b.roots.len() as int;
    let flat = flat_blocks(b, total);
    let start = blocks_before(b.roots, r) as int;
    let size = b.roots[r].blocks.len() as int;
    let all = map_blocks(b.roots[r].blocks, to_index(b));
    if n > 0 {
        lemma_members_of_flat(b, r, n - 1);
        let (r2, j2) = lemma_locate(b, total, n - 1);
        lemma_flat_blocks_at(b, total, r2, j2);
        assert(flat[n - 1] == root_records(b, r2)[j2]);
        assert(flat[n - 1].root == r2 as u16);
        if r2 == r {
            assert(n - 1 == start + j2);
            assert(all.take(j2).push(all[j2]) =~= all.take(j2 + 1));
        } else {
            assert((r2 as u16) as int == r2);
            assert(flat[n - 1].root != r);
            if r2 < r {
                lemma_blocks_before_grows(b.roots, r2 + 1, r);
            } else {
                lemma_blocks_before_grows(b.roots, r + 1, r2);
            }
        }
    } else {
        assert(all.take(0) =~= Seq::<BlockView<u16>>::empty());
    }
}

/// In the flat list of a building, a block's number leads back to its place.
pub proof fn lemma_place_of_index(b: BuildingView, link: BlockRef)
    requires
        indexable(b),
        b.has_block(link),
    ensures
        chain(to_index(b), to_place(flatten(b).blocks))(link) == Some(link),
{
    let total = b.roots.len() as int;
    let flat = flat_blocks(b, total);
    let r = link.root as int;
    let j = link.block as int;
    let index = blocks_before(b.roots, r) + j;
    lemma_flat_blocks_len(b, total);
    lemma_flat_blocks_at(b, total, r, j);
    lemma_blocks_before_grows(b.roots, r + 1, total);
    lemma_members_of_flat(b, r, index);
    assert(flat[index].root == r as u16);
    let all = map_blocks(b.roots[r].blocks, to_index(b));
    assert(all.take(j).len() == j);
    assert(place_of(flat, index) == link);
    assert((index as u16) as int == index);
}

/// Numbering the links of a building and then leading every number back to
/// its place keeps exactly the links to blocks of the building.
pub proof fn lemma_index_then_place(b: BuildingView)
    requires
        indexable(b),
    ensures
        chain(to_index(b), to_place(flatten(b).blocks)) == b.keep_present(),
{
    let f = chain(to_index(b), to_place(flatten(b).blocks));
    let g = b.keep_present();
    assert forall|link: BlockRef| #[trigger] f(link) == g(link) by {
        if b.has_block(link) {
            lemma_place_of_index(b, link);
        }
    }
    assert(f =~= g);
}

/// The roots of a flat list that was made from a building exist for all its
/// blocks.
pub proof fn lemma_flatten_owners(b: BuildingView)
    requires
        indexable(b),
    ensures
        owners_exist(flatten(b)),
{
    let total = b.roots.len() as int;
    let flat = flat_blocks(b, total);
    lemma_flat_blocks_len(b, total);
    assert forall|i: int| 0 <= i < flat.len() implies (#[trigger] flat[i]).root < b.roots.len() by {
        let (r, j) = lemma_locate(b, total, i);
        lemma_flat_blocks_at(b, total, r, j);
    }
}

/// A building that was made into two flat lists and back is the building
/// without the links that point to no block of it.
pub proof fn lemma_unflatten_flatten(b: BuildingView)
    requires
        indexable(b),
    ensures
        owners_exist(flatten(b)),
        unflatten(flatten(b)) == b.pruned(),
{
    lemma_flatten_owners(b);
    lemma_index_then_place(b);
    let rec = flatten(b);
    let total = b.roots.len() as int;
    lemma_flat_blocks_len(b, total);
    let back = unflatten(rec);
    assert(back.roots.len() == b.pruned().roots.len());
    assert forall|r: int| 0 <= r < b.roots.len() implies back.roots[r] == b.pruned().roots[r] by {
        lemma_members_of_flat(b, r, b.total_blocks() as int);
        lemma_blocks_before_grows(b.roots, r + 1, total);
        let mapped = map_blocks(b.roots[r].blocks, to_index(b));
        assert(mapped.take(mapped.len() as int) =~= mapped);
        assert(members(rec.blocks, r, rec.blocks.len() as int) == mapped);
        assert forall|j: int| 0 <= j < b.roots[r].blocks.len() implies map_block(
            mapped[j],
            to_place(rec.blocks),
        ) == map_block(b.roots[r].blocks[j], b.keep_present()) by {
            lemma_map_block_twice(b.roots[r].blocks[j], to_index(b), to_place(rec.blocks));
        }
        assert(back.roots[r].blocks =~= b.pruned().roots[r].blocks);
    }
    assert(back.roots =~= b.pruned().roots);
}

/// The executable form of `to_index`: for every root the number of blocks
/// before it and the number of its own.
pub struct Indexer {
    pub offsets: Vec<usize>,
    pub sizes: Vec<usize>,
}

impl LinkMap<BlockRef, u16> for Indexer {
    open spec fn valid(&self) -> bool {
        &&& self.offsets@.len() == self.sizes@.len()
        &&& forall|r: int|
            0 <= r < self.sizes@.len() ==> (#[trigger] self.offsets@[r]) + self.sizes@[r] <= 0xffff
    }

    open spec fn rule(&self) -> spec_fn(BlockRef) -> Option<u16> {
        |link: BlockRef|
            if link.root < self.sizes@.len() && link.block < self.sizes@[link.root as int] {
                Some((self.offsets@[link.root as int] + link.block) as u16)
            } else {
                None
            }
    }

    fn apply(&self, link: BlockRef) -> (r: Option<u16>) {
        if link.root < self.sizes.len() && link.block < self.sizes[link.root] {
            Some((self.offsets[link.root] + link.block) as u16)
        } else {
            None
        }
    }
}

/// Counts the blocks before every root; fails where the roots or the blocks
/// are more than 65535.
fn count_blocks(building: &Building) -> (r: Option<Indexer>)
    ensures
        match r {
            Some(indexer) => indexable(building@) && indexer.valid() && indexer.rule() == to_index(
                building@,
            ),
            None => !indexable(building@),
        },
{
    let ghost b = building@;
    if building.roots.len() > 0xffff {
        return None;
    }
    let mut offsets: Vec<usize> = Vec::new();
    let mut sizes: Vec<usize> = Vec::new();
    let mut total: usize = 0;
    let mut i: usize = 0;
    while i < building.roots.len()
        invariant
            i <= building.roots.len(),
            b == building@,
            total == blocks_before(b.roots, i as int),
            total <= 0xffff,
            offsets@.len() == i,
            sizes@.len() == i,
            forall|r: int| 0 <= r < i ==> #[trigger] offsets@[r] == blocks_before(b.roots, r),
            forall|r: int| 0 <= r < i ==> #[trigger] sizes@[r] == b.roots[r].blocks.len(),
        decreases building.roots.len() - i,
    {
        let size = building.roots[i].blocks.len();
        if size > 0xffff - total {
            proof {
                lemma_blocks_before_grows(b.roots, i + 1, b.roots.len() as int);
            }
            return None;
        }
        offsets.push(total);
        sizes.push(size);
        total = total + size;
        i += 1;
    }
    let indexer = Indexer { offsets, sizes };
    proof {
        assert forall|r: int| 0 <= r < indexer.sizes@.len() implies (
        #[trigger] indexer.offsets@[r]) + indexer.sizes@[r] <= 0xffff by {
            lemma_blocks_before_grows(b.roots, r + 1, b.roots.len() as int);
        }
        let f = indexer.rule();
        let g = to_index(b);
        assert forall|link: BlockRef| #[trigger] f(link) == g(link) by {}
        assert(f =~= g);
    }
    Some(indexer)
}

impl SerializableBuilding {
    /// Numbers the roots and blocks of a building and gives it as two flat
    /// lists, every link as the number of its target. Links to no block of
    /// the building are left out. Fails where the roots or the blocks are
    /// more than 65535.
    pub fn from_building(building: &Building) -> (r: Result<SerializableBuilding, CodecError>)
        ensures
            match r {
                Ok(flat) => indexable(building@) && flat@ == flatten(building@),
                Err(e) => e == CodecError::FormatViolation && !indexable(building@),
            },
    {
        let ghost b = building@;
        let indexer = match count_blocks(building) {
            Some(indexer) => indexer,
            None => return Err(CodecError::FormatViolation),
        };
        let mut roots: Vec<SerializableRoot> = Vec::new();
        let mut blocks: Vec<SerializableBlock> = Vec::new();
        let mut r: usize = 0;
        assert(block_records(blocks@) =~= flat_blocks(b, 0));
        while r < building.roots.len()
            invariant
                r <= building.roots.len(),
                b == building@,
                indexable(b),
                indexer.valid(),
                indexer.rule() == to_index(b),
                roots@.len() == r,
                forall|i: int| 0 <= i < r ==> #[trigger] roots@[i] == flat_roots(b)[i],
                block_records(blocks@) == flat_blocks(b, r as int),
            decreases building.roots.len() - r,
        {
            let root = &building.roots[r];
            roots.push(SerializableRoot { position: root.position, rotation: root.rotation });
            let ghost before = block_records(blocks@);
            let mut j: usize = 0;
            assert(root_records(b, r as int).take(0) =~= Seq::<BlockRecord>::empty());
            assert(before + Seq::<BlockRecord>::empty() =~= before);
            while j < root.blocks.len()
                invariant
                    j <= root.blocks.len(),
                    r < building.roots.len(),
                    b == building@,
                    indexable(b),
                    root == &building.roots[r as int],
                    indexer.valid(),
                    indexer.rule() == to_index(b),
                    block_records(blocks@) == before + root_records(b, r as int).take(j as int),
                decreases root.blocks.len() - j,
            {
                let block = root.blocks[j].relink(&indexer);
                proof {
                    let rec = BlockRecord { root: r as u16, block: block@ };
                    assert(b.roots[r as int].blocks[j as int] == root.blocks@[j as int]@);
                    assert(root_records(b, r as int)[j as int] == rec);
                    assert(root_records(b, r as int).take(j + 1) =~= root_records(
                        b,
                        r as int,
                    ).take(j as int).push(rec));
                    assert(block_records(
                        blocks@.push(SerializableBlock { root: r as u16, block }),
                    ) =~= block_records(blocks@).push(rec));
                }
                blocks.push(SerializableBlock { root: r as u16, block });
                j += 1;
            }
            proof {
                assert(root_records(b, r as int).take(j as int) =~= root_records(b, r as int));
            }
            r += 1;
        }
        let flat = SerializableBuilding { roots, blocks };
        assert(flat@.roots =~= flat_roots(b));
        Ok(flat)
    }
}

/// The executable form of `to_place`: the place of every block, by its
/// number.
pub struct Resolver {
    pub places: Vec<BlockRef>,
}

impl LinkMap<u16, BlockRef> for Resolver {
    open spec fn valid(&self) -> bool {
        true
    }

    open spec fn rule(&self) -> spec_fn(u16) -> Option<BlockRef> {
        |index: u16|
            if index < self.places@.len() {
                Some(self.places@[index as int])
            } else {
                None
            }
    }

    fn apply(&self, link: u16) -> (r: Option<BlockRef>) {
        if (link as usize) < self.places.len() {
            Some(self.places[link as usize])
        } else {
            None
        }
    }
}

/// The number of blocks of a root among the first `n` records is at most
/// `n`.
pub proof fn lemma_members_len(blocks: Seq<BlockRecord>, root: int, n: int)
    requires
        0 <= n,
    ensures
        members(blocks, root, n).len() <= n,
    decreases n,
{
    if n > 0 {
        lemma_members_len(blocks, root, n - 1);
    }
}

/// Finds the place of every block; fails where a block names a root that
/// the building does not have.
fn find_places(flat: &SerializableBuilding) -> (r: Option<Resolver>)
    ensures
        match r {
            Some(resolver) => owners_exist(flat@) && resolver.rule() == to_place(flat@.blocks),
            None => !owners_exist(flat@),
        },
{
    let ghost recs = flat@.blocks;
    let mut counts: Vec<usize> = Vec::new();
    let mut k: usize = 0;
    while k < flat.roots.len()
        invariant
            k <= flat.roots.len(),
            counts@.len() == k,
            forall|r: int| 0 <= r < k ==> #[trigger] counts@[r] == 0,
        decreases flat.roots.len() - k,
    {
        counts.push(0);
        k += 1;
    }
    let mut places: Vec<BlockRef> = Vec::new();
    let mut i: usize = 0;
    while i < flat.blocks.len()
        invariant
            i <= flat.blocks.len(),
            recs == flat@.blocks,
            counts@.len() == flat.roots@.len(),
            forall|r: int|
                0 <= r < counts@.len() ==> #[trigger] counts@[r] == members(recs, r, i as int).len(),
            places@.len() == i,
            forall|j: int| 0 <= j < i ==> #[trigger] places@[j] == place_of(recs, j),
            forall|j: int| 0 <= j < i ==> (#[trigger] recs[j]).root < flat.roots@.len(),
        decreases flat.blocks.len() - i,
    {
        let root = flat.blocks[i].root as usize;
        assert(recs[i as int] == flat.blocks@[i as int]@);
        if root >= flat.roots.len() {
            return None;
        }
        let seen = counts[root];
        proof {
            lemma_members_len(recs, root as int, i as int);
        }
        places.push(BlockRef { root, block: seen });
        counts.set(root, seen + 1);
        i += 1;
    }
    let resolver = Resolver { places };
    proof {
        let f = resolver.rule();
        let g = to_place(recs);
        assert forall|index: u16| #[trigger] f(index) == g(index) by {}
        assert(f =~= g);
    }
    Some(resolver)
}

impl SerializableBuilding {
    /// Puts every block into the root that it names, in the order of the
    /// list, and resolves every link to the place of the block with that
    /// number. Links with a number that no block has are left out. Fails
    /// where a block names a root that the building does not have.
    pub fn into_building(&self) -> (r: Result<Building, CodecError>)
        ensures
            match r {
                Ok(building) => owners_exist(self@) && building@ == unflatten(self@),
                Err(e) => e == CodecError::FormatViolation && !owners_exist(self@),
            },
    {
        let ghost rec = self@;
        let resolver = match find_places(self) {
            Some(resolver) => resolver,
            None => return Err(CodecError::FormatViolation),
        };
        let mut roots: Vec<Root> = Vec::new();
        let mut k: usize = 0;
        while k < self.roots.len()
            invariant
                k <= self.roots.len(),
                roots@.len() == k,
                forall|r: int|
                    0 <= r < k ==> (#[trigger] roots@[r]).position == self.roots@[r].position
                        && roots@[r].rotation == self.roots@[r].rotation && roots@[r].blocks@.len()
                        == 0,
            decreases self.roots.len() - k,
        {
            roots.push(
                Root {
                    position: self.roots[k].position,
                    rotation: self.roots[k].rotation,
                    blocks: Vec::new(),
                },
            );
            k += 1;
        }
        let mut i: usize = 0;
        assert forall|r: int| 0 <= r < roots@.len() implies block_views(
            (#[trigger] roots@[r]).blocks@,
        ) == map_blocks(members(rec.blocks, r, 0), to_place(rec.blocks)) by {
            assert(block_views(roots@[r].blocks@) =~= map_blocks(
                members(rec.blocks, r, 0),
                to_place(rec.blocks),
            ));
        }
        while i < self.blocks.len()
            invariant
                i <= self.blocks.len(),
                rec == self@,
                owners_exist(rec),
                resolver.rule() == to_place(rec.blocks),
                roots@.len() == self.roots@.len(),
                forall|r: int|
                    0 <= r < roots@.len() ==> (#[trigger] roots@[r]).position
                        == self.roots@[r].position && roots@[r].rotation
                        == self.roots@[r].rotation,
                forall|r: int|
                    0 <= r < roots@.len() ==> block_views((#[trigger] roots@[r]).blocks@)
                        == map_blocks(members(rec.blocks, r, i as int), to_place(rec.blocks)),
            decreases self.blocks.len() - i,
        {
            let owner = self.blocks[i].root as usize;
            assert(rec.blocks[i as int] == self.blocks@[i as int]@);
            let block = self.blocks[i].block.relink(&resolver);
            let ghost before = roots@;
            roots[owner].blocks.push(block);
            proof {
                assert forall|r: int| 0 <= r < roots@.len() implies block_views(
                    (#[trigger] roots@[r]).blocks@,
                ) == map_blocks(members(rec.blocks, r, i + 1), to_place(rec.blocks)) by {
                    if r == owner {
                        assert(block_views(roots@[r].blocks@) =~= block_views(
                            before[r].blocks@,
                        ).push(block@));
                        assert(block_views(roots@[r].blocks@) =~= map_blocks(
                            members(rec.blocks, r, i + 1),
                            to_place(rec.blocks),
                        ));
                    } else {
                        assert(roots@[r] == before[r]);
                    }
                }
            }
            i += 1;
        }
        let building = Building { roots };
        assert(building@.roots =~= unflatten(rec).roots);
        Ok(building)
    }
}

} // verus!
