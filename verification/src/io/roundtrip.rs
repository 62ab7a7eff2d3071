//! What reading gives back of what was written.

use vstd::prelude::*;
use crate::block::{BlockRef, BlockView};
use crate::building::{blocks_before, BuildingView};
use crate::error::DecodeError;
use crate::io::index::{
    flat_blocks, flat_roots, flatten, indexable, lemma_flatten_owners, lemma_unflatten_flatten,
    members, owners_exist, root_records, to_index, to_place, unflatten,
};
use crate::io::read::{canonical_stream, lemma_stream_roundtrip, parse_building};
use crate::io::types::{BlockRecord, BuildingRecord};
use crate::io::utils::items_bytes;
use crate::io::version::blocks::{block_bytes, block_flags, canonical_color, color_key, Tables};
use crate::io::version::v0::{canonical_metadata, metadata_bytes};
use crate::io::write::{block_enc, color_keys, rotation_keys, stream_bytes, tables_in};
use crate::io::utils::{lemma_has_at_prefix, lemma_truncated_color_stable, truncated_color};
use crate::io::version::blocks::{
    block_fits, canonical_block, canonical_record, quantized_color, rgb_of,
};
use crate::io::write::{building_bytes, encodable, stream_fits, uses_tables};
use crate::links::{
    lemma_map_block_twice, lemma_map_links_kept, map_block, map_fields, map_links, chain,
};
use crate::root::RootView;

verus! {

/// The building with every block in the form in which a stream of the given
/// version gives it back: the settings of its metadata canonical, and its
/// colour quantized where the version has dictionaries.
pub open spec fn canonical_building(b: BuildingView, version: u8) -> BuildingView {
    BuildingView {
        roots: Seq::new(
            b.roots.len(),
            |i: int|
                RootView {
                    position: b.roots[i].position,
                    rotation: b.roots[i].rotation,
                    blocks: Seq::new(
                        b.roots[i].blocks.len(),
                        |j: int| canonical_block(b.roots[i].blocks[j], uses_tables(version)),
                    ),
                },
        ),
    }
}

/// What is left of a building after it was written as a stream of the given
/// version and read back: the links to blocks that it does not have are
/// gone, and every block is in its canonical form.
pub open spec fn survivor(b: BuildingView, version: u8) -> BuildingView {
    canonical_building(b.pruned(), version)
}

/// Carrying the links of a block over and bringing the block into its
/// canonical form can be done in either order.
pub proof fn lemma_canonical_map<A, B>(b: BlockView<A>, indexed: bool, f: spec_fn(A) -> Option<B>)
    ensures
        map_block(canonical_block(b, indexed), f) == canonical_block(map_block(b, f), indexed),
{
}

/// A block in its canonical form is not changed by being brought into it
/// again.
pub proof fn lemma_canonical_block_stable<R>(b: BlockView<R>, indexed: bool)
    ensures
        canonical_block(canonical_block(b, indexed), indexed) == canonical_block(b, indexed),
{
    match b.color {
        Some(c) => {
            if indexed {
                let q = quantized_color(c);
                lemma_truncated_color_stable(rgb_of(c));
                assert(rgb_of(q) =~= truncated_color(rgb_of(c)));
                assert(quantized_color(q) =~= q);
            }
        },
        None => {},
    }
}

/// A block fits its record whether or not it is in its canonical form.
pub proof fn lemma_canonical_fits(b: BlockRecord, indexed: bool)
    ensures
        block_fits(canonical_record(b, indexed), None) == block_fits(b, None),
{
    reveal(block_fits);
}

/// The blocks of a root among the records do not depend on the form that
/// the blocks are in.
proof fn lemma_members_canonical(blocks: Seq<BlockRecord>, indexed: bool, root: int, n: int)
    requires
        0 <= n <= blocks.len(),
    ensures
        members(blocks.map_values(|b: BlockRecord| canonical_record(b, indexed)), root, n)
            == members(blocks, root, n).map_values(
            |b: BlockView<u16>| canonical_block(b, indexed),
        ),
    decreases n,
{
    let canon = blocks.map_values(|b: BlockRecord| canonical_record(b, indexed));
    let f = |b: BlockView<u16>| canonical_block(b, indexed);
    if n > 0 {
        lemma_members_canonical(blocks, indexed, root, n - 1);
        let init = members(blocks, root, n - 1);
        if blocks[n - 1].root == root {
            assert(init.push(blocks[n - 1].block).map_values(f) =~= init.map_values(f).push(
                f(blocks[n - 1].block),
            ));
        }
    } else {
        assert(members(blocks, root, n).map_values(f) =~= Seq::<BlockView<u16>>::empty());
    }
}

/// Flat lists with their blocks in canonical form stand for the building
/// with its blocks in canonical form.
pub proof fn lemma_unflatten_canonical(rec: BuildingRecord, version: u8)
    ensures
        owners_exist(canonical_stream(rec, version)) == owners_exist(rec),
        unflatten(canonical_stream(rec, version)) == canonical_building(unflatten(rec), version),
{
    let indexed = uses_tables(version);
    let canon = canonical_stream(rec, version);
    let n = rec.blocks.len() as int;
    if owners_exist(rec) {
        assert forall|i: int| 0 <= i < canon.blocks.len() implies (
        #[trigger] canon.blocks[i]).root < canon.roots.len() by {
            assert(rec.blocks[i].root < rec.roots.len());
        }
    }
    if owners_exist(canon) {
        assert forall|i: int| 0 <= i < rec.blocks.len() implies (#[trigger] rec.blocks[i]).root
            < rec.roots.len() by {
            assert(canon.blocks[i].root < canon.roots.len());
        }
    }
    let f = to_place(canon.blocks);
    let g = to_place(rec.blocks);
    assert forall|index: u16| #[trigger] f(index) == g(index) by {
        if index < rec.blocks.len() {
            lemma_members_canonical(
                rec.blocks,
                indexed,
                rec.blocks[index as int].root as int,
                index as int,
            );
        }
    }
    assert(f =~= g);
    let left = unflatten(canon);
    let right = canonical_building(unflatten(rec), version);
    assert forall|r: int| 0 <= r < rec.roots.len() implies left.roots[r] == right.roots[r] by {
        lemma_members_canonical(rec.blocks, indexed, r, n);
        let m = members(rec.blocks, r, n);
        assert forall|j: int| 0 <= j < m.len() implies map_block(canonical_block(m[j], indexed), g)
            == canonical_block(map_block(m[j], g), indexed) by {
            lemma_canonical_map(m[j], indexed, g);
        }
        assert(left.roots[r].blocks =~= right.roots[r].blocks);
    }
    assert(left.roots =~= right.roots);
}

/// The number of blocks before a root depends only on how many blocks the
/// roots have.
proof fn lemma_blocks_before_same(a: Seq<RootView>, b: Seq<RootView>, k: int)
    requires
        a.len() == b.len(),
        0 <= k <= a.len(),
        forall|i: int| 0 <= i < a.len() ==> (#[trigger] a[i]).blocks.len() == b[i].blocks.len(),
    ensures
        blocks_before(a, k) == blocks_before(b, k),
    decreases k,
{
    if k > 0 {
        lemma_blocks_before_same(a, b, k - 1);
    }
}

/// Buildings whose roots have equally many blocks number their links alike.
proof fn lemma_to_index_same(a: BuildingView, b: BuildingView)
    requires
        a.roots.len() == b.roots.len(),
        forall|i: int|
            0 <= i < a.roots.len() ==> (#[trigger] a.roots[i]).blocks.len()
                == b.roots[i].blocks.len(),
    ensures
        to_index(a) == to_index(b),
        a.keep_present() == b.keep_present(),
        a.total_blocks() == b.total_blocks(),
{
    let f = to_index(a);
    let g = to_index(b);
    assert forall|link: BlockRef| #[trigger] f(link) == g(link) by {
        if a.has_block(link) {
            lemma_blocks_before_same(a.roots, b.roots, link.root as int);
        }
    }
    assert(f =~= g);
    let f2 = a.keep_present();
    let g2 = b.keep_present();
    assert forall|link: BlockRef| #[trigger] f2(link) == g2(link) by {}
    assert(f2 =~= g2);
    lemma_blocks_before_same(a.roots, b.roots, a.roots.len() as int);
}

/// The flat lists of a building with its blocks in canonical form are the
/// flat lists of the building with their blocks in canonical form.
pub proof fn lemma_flatten_canonical(b: BuildingView, version: u8)
    ensures
        flatten(canonical_building(b, version)) == canonical_stream(flatten(b), version),
        indexable(canonical_building(b, version)) == indexable(b),
{
    let c = canonical_building(b, version);
    lemma_to_index_same(c, b);
    lemma_flat_blocks_canonical(b, version, b.roots.len() as int);
    assert(flat_roots(c) =~= flat_roots(b));
}

proof fn lemma_flat_blocks_canonical(b: BuildingView, version: u8, k: int)
    requires
        0 <= k <= b.roots.len(),
    ensures
        flat_blocks(canonical_building(b, version), k) == flat_blocks(b, k).map_values(
            |x: BlockRecord| canonical_record(x, uses_tables(version)),
        ),
    decreases k,
{
    let c = canonical_building(b, version);
    let indexed = uses_tables(version);
    let f = |x: BlockRecord| canonical_record(x, indexed);
    if k > 0 {
        lemma_flat_blocks_canonical(b, version, k - 1);
        lemma_to_index_same(c, b);
        let r = k - 1;
        assert forall|j: int| 0 <= j < b.roots[r].blocks.len() implies root_records(c, r)[j] == f(
            root_records(b, r)[j],
        ) by {
            lemma_canonical_map(b.roots[r].blocks[j], indexed, to_index(b));
        }
        assert(root_records(c, r) =~= root_records(b, r).map_values(f));
        assert((flat_blocks(b, k - 1) + root_records(b, r)).map_values(f) =~= flat_blocks(
            b,
            k - 1,
        ).map_values(f) + root_records(b, r).map_values(f));
    } else {
        assert(flat_blocks(b, k).map_values(f) =~= Seq::<BlockRecord>::empty());
    }
}

/// A building has the same flat lists with and without its links to blocks
/// that it does not have.
pub proof fn lemma_flatten_pruned(b: BuildingView)
    ensures
        flatten(b.pruned()) == flatten(b),
        indexable(b.pruned()) == indexable(b),
{
    let p = b.pruned();
    lemma_to_index_same(p, b);
    lemma_flat_blocks_pruned(b, b.roots.len() as int);
    assert(flat_roots(p) =~= flat_roots(b));
}

proof fn lemma_flat_blocks_pruned(b: BuildingView, k: int)
    requires
        0 <= k <= b.roots.len(),
    ensures
        flat_blocks(b.pruned(), k) == flat_blocks(b, k),
    decreases k,
{
    let p = b.pruned();
    if k > 0 {
        lemma_flat_blocks_pruned(b, k - 1);
        lemma_to_index_same(p, b);
        let r = k - 1;
        let both = chain(b.keep_present(), to_index(b));
        assert forall|link: BlockRef| #[trigger] both(link) == to_index(b)(link) by {}
        assert(both =~= to_index(b));
        assert forall|j: int| 0 <= j < b.roots[r].blocks.len() implies root_records(p, r)[j]
            == root_records(b, r)[j] by {
            lemma_map_block_twice(b.roots[r].blocks[j], b.keep_present(), to_index(b));
        }
        assert(root_records(p, r) =~= root_records(b, r));
    }
}

/// Flat lists in canonical form are not changed by being brought into it
/// again, and fit as the lists they came from.
pub proof fn lemma_canonical_stream_stable(rec: BuildingRecord, version: u8)
    ensures
        canonical_stream(canonical_stream(rec, version), version) == canonical_stream(
            rec,
            version,
        ),
        stream_fits(canonical_stream(rec, version)) == stream_fits(rec),
{
    let indexed = uses_tables(version);
    let once = canonical_stream(rec, version);
    let twice = canonical_stream(once, version);
    assert forall|i: int| 0 <= i < rec.blocks.len() implies twice.blocks[i] == once.blocks[i] by {
        lemma_canonical_block_stable(rec.blocks[i].block, indexed);
    }
    assert(twice.blocks =~= once.blocks);
    if stream_fits(rec) {
        assert forall|i: int| 0 <= i < once.blocks.len() implies block_fits(
            #[trigger] once.blocks[i],
            None,
        ) by {
            lemma_canonical_fits(rec.blocks[i], indexed);
        }
    }
    if stream_fits(once) {
        assert forall|i: int| 0 <= i < rec.blocks.len() implies block_fits(
            #[trigger] rec.blocks[i],
            None,
        ) by {
            assert(block_fits(once.blocks[i], None));
            lemma_canonical_fits(rec.blocks[i], indexed);
        }
    }
}

/// Round trip. A building that can be written, once written in any version,
/// is read back, whatever follows it in the stream, as the building without
/// its links to blocks that it does not have and with every block in its
/// canonical form: nothing else is lost.
pub proof fn theorem_roundtrip(b: BuildingView, version: u8, rest: Seq<u8>)
    requires
        encodable(b),
    ensures
        parse_building(building_bytes(b, version) + rest) == Ok::<BuildingView, DecodeError>(
            survivor(b, version),
        ),
{
    let rec = flatten(b);
    let s = building_bytes(b, version) + rest;
    lemma_has_at_prefix(building_bytes(b, version), rest);
    lemma_stream_roundtrip(rec, version, s);
    lemma_unflatten_flatten(b);
    lemma_unflatten_canonical(rec, version);
}

/// Re-encoding. What was read back from a stream can itself be written in
/// the same version, and is then read back unchanged: after the first pass
/// nothing drifts.
pub proof fn theorem_reencode(b: BuildingView, version: u8, rest: Seq<u8>)
    requires
        encodable(b),
    ensures
        encodable(survivor(b, version)),
        parse_building(building_bytes(survivor(b, version), version) + rest) == Ok::<
            BuildingView,
            DecodeError,
        >(survivor(b, version)),
{
    let c = survivor(b, version);
    let rec = flatten(b);
    lemma_flatten_pruned(b);
    lemma_flatten_canonical(b.pruned(), version);
    assert(flatten(c) == canonical_stream(rec, version));
    lemma_canonical_stream_stable(rec, version);
    assert(encodable(c));
    let s = building_bytes(c, version) + rest;
    lemma_has_at_prefix(building_bytes(c, version), rest);
    lemma_stream_roundtrip(flatten(c), version, s);
    lemma_unflatten_flatten(b);
    lemma_unflatten_canonical(rec, version);
    lemma_flatten_owners(b);
}

/// Packing a colour gives the same word whether or not the colour went
/// through a dictionary before.
pub proof fn lemma_color_key_canonical(color: [u8; 4], indexed: bool)
    ensures
        color_key(canonical_color(color, indexed)) == color_key(color),
{
    if indexed {
        let q = quantized_color(color);
        let (r, g, b) = (color[0], color[1], color[2]);
        assert(rgb_of(q) =~= truncated_color(rgb_of(color)));
        assert((((((r & 0xF8) & 0xF8) as u16) << 8) | ((((g & 0xFC) & 0xFC) as u16) << 3) | ((((b
            & 0xF8) & 0xF8) as u16) >> 3)) == ((((r & 0xF8) as u16) << 8) | (((g & 0xFC) as u16)
            << 3) | (((b & 0xF8) as u16) >> 3))) by (bit_vector);
    }
}

/// The record of a block has the same bytes whether or not the block is in
/// its canonical form.
pub proof fn lemma_canonical_bytes(b: BlockRecord, indexed: bool, tables: Option<Tables>)
    requires
        indexed == (tables is Some),
    ensures
        block_bytes(canonical_record(b, indexed), tables) == block_bytes(b, tables),
{
    reveal(block_bytes);
    let c = canonical_record(b, indexed);
    assert(block_flags(c.block) =~= block_flags(b.block));
    match b.block.color {
        Some(color) => {
            lemma_color_key_canonical(color, indexed);
        },
        None => {},
    }
    match b.block.metadata {
        Some(m) => {
            let cm = canonical_metadata(b.block.id, m);
            assert(metadata_bytes(b.block.id, cm) == metadata_bytes(b.block.id, m));
        },
        None => {},
    }
}

proof fn lemma_keys_canonical(blocks: Seq<BlockRecord>, indexed: bool)
    ensures
        rotation_keys(blocks.map_values(|b: BlockRecord| canonical_record(b, indexed)))
            == rotation_keys(blocks),
        color_keys(blocks.map_values(|b: BlockRecord| canonical_record(b, indexed)))
            == color_keys(blocks),
    decreases blocks.len(),
{
    let canon = blocks.map_values(|b: BlockRecord| canonical_record(b, indexed));
    assert(rotation_keys(canon) =~= rotation_keys(blocks));
    if blocks.len() > 0 {
        lemma_keys_canonical(blocks.drop_last(), indexed);
        assert(canon.drop_last() =~= blocks.drop_last().map_values(
            |b: BlockRecord| canonical_record(b, indexed),
        ));
        match blocks.last().block.color {
            Some(color) => {
                lemma_color_key_canonical(color, indexed);
            },
            None => {},
        }
    }
}

proof fn lemma_items_canonical_bytes(blocks: Seq<BlockRecord>, indexed: bool, tables: Option<Tables>)
    requires
        indexed == (tables is Some),
    ensures
        items_bytes(
            blocks.map_values(|b: BlockRecord| canonical_record(b, indexed)),
            block_enc(tables),
        ) == items_bytes(blocks, block_enc(tables)),
    decreases blocks.len(),
{
    let canon = blocks.map_values(|b: BlockRecord| canonical_record(b, indexed));
    if blocks.len() > 0 {
        lemma_items_canonical_bytes(blocks.drop_last(), indexed, tables);
        assert(canon.drop_last() =~= blocks.drop_last().map_values(
            |b: BlockRecord| canonical_record(b, indexed),
        ));
        lemma_canonical_bytes(blocks.last(), indexed, tables);
    }
}

/// Flat lists have the same bytes whether or not their blocks are in
/// canonical form.
pub proof fn lemma_canonical_stream_bytes(rec: BuildingRecord, version: u8)
    ensures
        stream_bytes(canonical_stream(rec, version), version) == stream_bytes(rec, version),
{
    let indexed = uses_tables(version);
    lemma_keys_canonical(rec.blocks, indexed);
    lemma_items_canonical_bytes(rec.blocks, indexed, tables_in(rec.blocks, version));
}

/// Stable bytes. Writing what was read back from a stream gives the bytes
/// of the stream again.
pub proof fn theorem_reencode_bytes(b: BuildingView, version: u8)
    requires
        encodable(b),
    ensures
        building_bytes(survivor(b, version), version) == building_bytes(b, version),
{
    lemma_flatten_pruned(b);
    lemma_flatten_canonical(b.pruned(), version);
    lemma_canonical_stream_bytes(flatten(b), version);
}

/// Every link of the building points to a block of the building.
pub open spec fn closed(b: BuildingView) -> bool {
    forall|i: int, j: int|
        0 <= i < b.roots.len() && 0 <= j < b.roots[i].blocks.len() ==> links_present(
            b,
            #[trigger] b.roots[i].blocks[j],
        )
}

/// The connections, the load and the links of the fields of a block point
/// to blocks of the building.
pub open spec fn links_present(b: BuildingView, block: BlockView<BlockRef>) -> bool {
    &&& forall|k: int|
        0 <= k < block.connections.len() ==> b.has_block(#[trigger] block.connections[k])
    &&& block.load matches Some(link) ==> b.has_block(link)
    &&& block.metadata matches Some(m) ==> forall|f: int, k: int|
        0 <= f < m.fields.len() && 0 <= k < m.fields[f].len() ==> b.has_block(
            #[trigger] m.fields[f][k],
        )
}

/// Every block of the building is in the form in which a stream of the
/// given version gives it back.
pub open spec fn settled(b: BuildingView, version: u8) -> bool {
    forall|i: int, j: int|
        0 <= i < b.roots.len() && 0 <= j < b.roots[i].blocks.len() ==> canonical_block(
            #[trigger] b.roots[i].blocks[j],
            uses_tables(version),
        ) == b.roots[i].blocks[j]
}

/// Exact round trip. A building whose links all point to its own blocks and
/// whose blocks are all in canonical form is read back exactly as it was
/// written.
pub proof fn theorem_roundtrip_exact(b: BuildingView, version: u8, rest: Seq<u8>)
    requires
        encodable(b),
        closed(b),
        settled(b, version),
    ensures
        parse_building(building_bytes(b, version) + rest) == Ok::<BuildingView, DecodeError>(b),
{
    theorem_roundtrip(b, version, rest);
    let p = b.pruned();
    assert forall|i: int| 0 <= i < b.roots.len() implies p.roots[i] == b.roots[i] by {
        assert forall|j: int| 0 <= j < b.roots[i].blocks.len() implies map_block(
            b.roots[i].blocks[j],
            b.keep_present(),
        ) == b.roots[i].blocks[j] by {
            let block = b.roots[i].blocks[j];
            assert(links_present(b, block));
            lemma_map_links_kept(block.connections, b.keep_present());
            match block.metadata {
                Some(m) => {
                    assert forall|f: int| 0 <= f < m.fields.len() implies map_links(
                        m.fields[f],
                        b.keep_present(),
                    ) == m.fields[f] by {
                        lemma_map_links_kept(m.fields[f], b.keep_present());
                    }
                    assert(map_fields(m.fields, b.keep_present()) =~= m.fields);
                },
                None => {},
            }
        }
        assert(p.roots[i].blocks =~= b.roots[i].blocks);
    }
    assert(p.roots =~= b.roots);
    let c = canonical_building(p, version);
    assert forall|i: int| 0 <= i < b.roots.len() implies c.roots[i] == b.roots[i] by {
        assert(c.roots[i].blocks =~= b.roots[i].blocks);
    }
    assert(c.roots =~= b.roots);
}

/// The index space. A building with more than 65535 roots, or with more
/// than 65535 blocks in all, cannot be written.
pub proof fn theorem_index_space(b: BuildingView)
    ensures
        b.roots.len() > 0xffff ==> !encodable(b),
        b.total_blocks() > 0xffff ==> !encodable(b),
{
}

} // verus!
