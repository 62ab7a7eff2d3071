//! Writing a building as a stream: the version byte, the roots, the
//! dictionaries where the version has them, and the blocks.

use vstd::prelude::*;
use byteorder::{ByteOrder, LittleEndian};
use crate::building::{Building, BuildingView};
use crate::error::CodecError;
use crate::io::index::{flatten, indexable};
use crate::io::table::{dedup, lemma_dedup, DedupTable};
use crate::io::types::{block_records, BlockRecord, BuildingRecord, SerializableBlock};
use crate::io::types::{SerializableBuilding, SerializableRoot};
use crate::io::utils::{
    items_bytes, le_bytes_u16, models, write_counted, write_num, write_raw, write_records,
    write_vec, LE,
};
use crate::io::version::blocks::{
    block_bytes, block_fits, color_key, color_key_of, indices_bytes, key_rotation, rotation_key,
    rotation_key_of, tables_of, write_block, TableSet, Tables,
};
use crate::io::version::v0::{list_bytes, u16_bytes};
use crate::links::map_links;

verus! {

/// The last version that writes rotations and colours out in every block.
pub const LAST_PLAIN_VERSION: u8 = 5;

/// Whether a version gives rotations and colours as indices into
/// dictionaries.
pub open spec fn uses_tables(version: u8) -> bool {
    version > LAST_PLAIN_VERSION
}

/// The rotations of the blocks, in order, as numbers.
pub open spec fn rotation_keys(blocks: Seq<BlockRecord>) -> Seq<u64> {
    blocks.map_values(|b: BlockRecord| rotation_key(b.block.rotation))
}

/// The rule that gives the colour of a block as a number, if it has one.
pub open spec fn color_key_rule() -> spec_fn(BlockRecord) -> Option<u64> {
    |b: BlockRecord|
        match b.block.color {
            Some(c) => Some(color_key(c)),
            None => None,
        }
}

/// The colours of the blocks that have one, in order, as numbers.
pub open spec fn color_keys(blocks: Seq<BlockRecord>) -> Seq<u64> {
    map_links(blocks, color_key_rule())
}

/// The dictionaries of a list of blocks: the distinct rotations and the
/// distinct colours, each in the order of their first occurrence.
pub open spec fn tables_for(blocks: Seq<BlockRecord>) -> Tables {
    Tables { rotations: dedup(rotation_keys(blocks)), colors: dedup(color_keys(blocks)) }
}

/// The dictionaries that a version writes, if it writes any.
pub open spec fn tables_in(blocks: Seq<BlockRecord>, version: u8) -> Option<Tables> {
    if uses_tables(version) {
        Some(tables_for(blocks))
    } else {
        None
    }
}

/// The dictionaries on the wire: the rotations, three angles each, behind a
/// 16-bit count, then the colours as RGB565 words behind a 16-bit count.
pub open spec fn tables_bytes(tables: Option<Tables>) -> Seq<u8> {
    match tables {
        Some(t) => list_bytes::<[u16; 3]>(t.wire().rotations) + indices_bytes(t.wire().colors),
        None => Seq::empty(),
    }
}

/// The layout of a block under given dictionaries, as a value.
pub open spec fn block_enc(tables: Option<Tables>) -> spec_fn(BlockRecord) -> Seq<u8> {
    |b: BlockRecord| block_bytes(b, tables)
}

/// The bytes of a building: the version; the number of roots as a 16-bit
/// count and the roots; the dictionaries, for a version that has them; the
/// number of blocks as a 16-bit count and the blocks.
pub open spec fn stream_bytes(rec: BuildingRecord, version: u8) -> Seq<u8> {
    seq![version] + list_bytes::<SerializableRoot>(rec.roots) + tables_bytes(
        tables_in(rec.blocks, version),
    ) + u16_bytes(rec.blocks.len() as u16) + items_bytes(
        rec.blocks,
        block_enc(tables_in(rec.blocks, version)),
    )
}

/// Whether a building can be written: it has at most 65535 roots and at most
/// 65535 blocks, and every block fits its record.
pub open spec fn stream_fits(rec: BuildingRecord) -> bool {
    &&& rec.roots.len() <= 0xffff
    &&& rec.blocks.len() <= 0xffff
    &&& forall|i: int| 0 <= i < rec.blocks.len() ==> block_fits(#[trigger] rec.blocks[i], None)
}

/// The dictionaries of a list of blocks hold what each block needs, and no
/// more values than there are blocks.
pub proof fn lemma_tables_serve(blocks: Seq<BlockRecord>, i: int)
    requires
        0 <= i < blocks.len(),
    ensures
        tables_for(blocks).rotations.contains(rotation_key(blocks[i].block.rotation)),
        blocks[i].block.color matches Some(c) ==> tables_for(blocks).colors.contains(color_key(c)),
        tables_for(blocks).rotations.len() <= blocks.len(),
        tables_for(blocks).colors.len() <= blocks.len(),
        tables_for(blocks).rotations.no_duplicates(),
        tables_for(blocks).colors.no_duplicates(),
{
    lemma_dedup(rotation_keys(blocks));
    lemma_dedup(color_keys(blocks));
    assert(rotation_keys(blocks)[i] == rotation_key(blocks[i].block.rotation));
    lemma_color_keys(blocks, i);
}

/// The colours of the blocks hold the colour of each block that has one, and
/// are no more than the blocks.
pub proof fn lemma_color_keys(blocks: Seq<BlockRecord>, i: int)
    requires
        0 <= i < blocks.len(),
    ensures
        color_keys(blocks).len() <= blocks.len(),
        blocks[i].block.color matches Some(c) ==> color_keys(blocks).contains(color_key(c)),
    decreases blocks.len(),
{
    let init = blocks.drop_last();
    if i < blocks.len() - 1 {
        lemma_color_keys(init, i);
        match blocks[i].block.color {
            Some(c) => {
                let j = choose|j: int|
                    0 <= j < color_keys(init).len() && color_keys(init)[j] == color_key(c);
                assert(color_keys(blocks)[j] == color_key(c));
            },
            None => {},
        }
    } else {
        if init.len() > 0 {
            lemma_color_keys(init, 0);
        }
        match blocks[i].block.color {
            Some(c) => {
                assert(color_keys(blocks)[color_keys(init).len() as int] == color_key(c));
            },
            None => {},
        }
    }
}

/// The dictionaries of the first blocks of a list hold no more values than
/// those of the whole list.
pub proof fn lemma_tables_grow(blocks: Seq<BlockRecord>, k: int)
    requires
        0 <= k <= blocks.len(),
    ensures
        tables_for(blocks.take(k)).rotations.len() <= tables_for(blocks).rotations.len(),
        tables_for(blocks.take(k)).colors.len() <= tables_for(blocks).colors.len(),
    decreases blocks.len() - k,
{
    if k < blocks.len() {
        lemma_tables_grow(blocks, k + 1);
        let more = blocks.take(k + 1);
        assert(more.drop_last() =~= blocks.take(k));
        assert(rotation_keys(more).drop_last() =~= rotation_keys(blocks.take(k)));
        match more.last().block.color {
            Some(c) => {
                let before = color_keys(blocks.take(k));
                assert(before.push(color_key(c)).drop_last() =~= before);
            },
            None => {},
        }
    } else {
        assert(blocks.take(k) =~= blocks);
    }
}

/// Builds the dictionaries of a list of blocks; fails where one of them
/// would hold more than 65536 values.
pub fn build_tables(blocks: &Vec<SerializableBlock>) -> (r: Option<TableSet>)
    ensures
        match r {
            Some(tables) => tables.wf() && tables@ == tables_for(block_records(blocks@)),
            None => tables_for(block_records(blocks@)).rotations.len() > 0x10000 || tables_for(
                block_records(blocks@),
            ).colors.len() > 0x10000,
        },
{
    let ghost recs = block_records(blocks@);
    let mut rotations = DedupTable::new();
    let mut colors = DedupTable::new();
    let mut i: usize = 0;
    assert(rotation_keys(recs.take(0)) =~= Seq::<u64>::empty());
    assert(recs.take(0) =~= Seq::<BlockRecord>::empty());
    while i < blocks.len()
        invariant
            i <= blocks.len(),
            recs == block_records(blocks@),
            rotations.wf(),
            colors.wf(),
            rotations.dict() == dedup(rotation_keys(recs.take(i as int))),
            colors.dict() == dedup(color_keys(recs.take(i as int))),
        decreases blocks.len() - i,
    {
        let block = &blocks[i].block;
        proof {
            let before = recs.take(i as int);
            let after = recs.take(i + 1);
            lemma_tables_grow(recs, i + 1);
            assert(after.drop_last() =~= before);
            assert(after.last() == blocks@[i as int]@);
            assert(rotation_keys(after).drop_last() =~= rotation_keys(before));
            assert(rotation_keys(after).last() == rotation_key(block.rotation));
        }
        if rotations.intern(rotation_key_of(&block.rotation)).is_none() {
            return None;
        }
        match &block.color {
            Some(c) => {
                proof {
                    let before = color_keys(recs.take(i as int));
                    assert(before.push(color_key(*c)).drop_last() =~= before);
                }
                if colors.intern(color_key_of(c)).is_none() {
                    return None;
                }
            },
            None => {},
        }
        i += 1;
    }
    assert(recs.take(i as int) =~= recs);
    Some(TableSet { rotations, colors })
}

fn key_rotation_of(key: u64) -> (rotation: [u16; 3])
    ensures
        rotation == key_rotation(key),
{
    [(key & 0xffff) as u16, ((key >> 16) & 0xffff) as u16, ((key >> 32) & 0xffff) as u16]
}

/// Writes the two dictionaries; fails where one of them holds more than
/// 65535 values.
pub fn write_tables(out: &mut Vec<u8>, tables: &TableSet) -> (r: Result<(), CodecError>)
    ensures
        match r {
            Ok(()) => tables@.rotations.len() <= 0xffff && tables@.colors.len() <= 0xffff
                && final(out)@ == old(out)@ + tables_bytes(Some(tables@)),
            Err(e) => e == CodecError::FormatViolation && !(tables@.rotations.len() <= 0xffff
                && tables@.colors.len() <= 0xffff),
        },
{
    let keys = tables.rotations.values();
    let mut rotations: Vec<[u16; 3]> = Vec::new();
    let mut i: usize = 0;
    while i < keys.len()
        invariant
            i <= keys.len(),
            rotations@.len() == i,
            forall|j: int| 0 <= j < i ==> #[trigger] rotations@[j] == key_rotation(keys@[j]),
        decreases keys.len() - i,
    {
        rotations.push(key_rotation_of(keys[i]));
        i += 1;
    }
    assert(models::<[u16; 3]>(rotations@) =~= tables@.wire().rotations);
    let keys = tables.colors.values();
    let mut colors: Vec<u16> = Vec::new();
    let mut i: usize = 0;
    while i < keys.len()
        invariant
            i <= keys.len(),
            colors@.len() == i,
            forall|j: int| 0 <= j < i ==> #[trigger] colors@[j] == keys@[j] as u16,
        decreases keys.len() - i,
    {
        colors.push(keys[i] as u16);
        i += 1;
    }
    assert(colors@ =~= tables@.wire().colors);
    match write_counted::<u16, LE, [u16; 3]>(out, &rotations) {
        Ok(()) => {},
        Err(e) => return Err(e),
    }
    match write_vec::<u16, u16, LE>(out, colors.as_slice()) {
        Ok(()) => {},
        Err(e) => return Err(e),
    }
    assert(out@ == old(out)@ + (list_bytes::<[u16; 3]>(tables@.wire().rotations) + indices_bytes(
        tables@.wire().colors,
    )));
    Ok(())
}

/// With dictionaries that hold what a block needs, the block fits as it
/// fits without dictionaries.
pub proof fn lemma_block_fits_with_tables(blocks: Seq<BlockRecord>, i: int)
    requires
        0 <= i < blocks.len(),
    ensures
        block_fits(blocks[i], Some(tables_for(blocks))) == block_fits(blocks[i], None),
{
    reveal(block_fits);
    lemma_tables_serve(blocks, i);
}

/// `LittleEndian::write_u16` of byteorder, on a buffer of two bytes: the low
/// byte of the number, then its high byte.
#[verifier::external_body]
fn count_bytes(count: u16) -> (bytes: [u8; 2])
    ensures
        bytes@ == le_bytes_u16(count),
{
    let mut bytes = [0u8; 2];
    LittleEndian::write_u16(&mut bytes, count);
    bytes
}

/// Writes a count of roots or blocks as a 16-bit number.
fn write_count(out: &mut Vec<u8>, count: u16)
    ensures
        final(out)@ == old(out)@ + u16_bytes(count),
{
    let bytes = count_bytes(count);
    write_raw(out, bytes.as_slice());
}

/// Writes the records of the blocks one after another.
fn write_blocks(out: &mut Vec<u8>, blocks: &Vec<SerializableBlock>, tables: Option<&TableSet>) -> (r:
    Result<(), CodecError>)
    requires
        tables matches Some(t) ==> t.wf(),
    ensures
        match r {
            Ok(()) => (forall|i: int|
                0 <= i < blocks@.len() ==> block_fits(
                    #[trigger] block_records(blocks@)[i],
                    tables_of(tables),
                )) && final(out)@ == old(out)@ + items_bytes(
                block_records(blocks@),
                block_enc(tables_of(tables)),
            ),
            Err(e) => e == CodecError::FormatViolation && exists|i: int|
                0 <= i < blocks@.len() && !block_fits(
                    #[trigger] block_records(blocks@)[i],
                    tables_of(tables),
                ),
        },
{
    let ghost recs = block_records(blocks@);
    let ghost enc = block_enc(tables_of(tables));
    let mut i: usize = 0;
    assert(recs.take(0) =~= Seq::<BlockRecord>::empty());
    while i < blocks.len()
        invariant
            i <= blocks.len(),
            recs == block_records(blocks@),
            enc == block_enc(tables_of(tables)),
            tables matches Some(t) ==> t.wf(),
            forall|j: int| 0 <= j < i ==> block_fits(#[trigger] recs[j], tables_of(tables)),
            out@ == old(out)@ + items_bytes(recs.take(i as int), enc),
        decreases blocks.len() - i,
    {
        proof {
            assert(recs.take(i + 1).drop_last() =~= recs.take(i as int));
            assert(recs.take(i + 1).last() == blocks@[i as int]@);
            assert(recs[i as int] == blocks@[i as int]@);
        }
        match write_block(out, &blocks[i], tables) {
            Ok(()) => {},
            Err(e) => {
                return Err(e);
            },
        }
        i += 1;
    }
    assert(recs.take(i as int) =~= recs);
    Ok(())
}

/// Writes a building that is given as two flat lists. On failure the output
/// is in no particular state.
pub fn write_stream(out: &mut Vec<u8>, flat: &SerializableBuilding, version: u8) -> (r: Result<
    (),
    CodecError,
>)
    ensures
        match r {
            Ok(()) => stream_fits(flat@) && final(out)@ == old(out)@ + stream_bytes(
                flat@,
                version,
            ),
            Err(e) => e == CodecError::FormatViolation && !stream_fits(flat@),
        },
{
    let ghost rec = flat@;
    if flat.roots.len() > 0xffff || flat.blocks.len() > 0xffff {
        return Err(CodecError::FormatViolation);
    }
    write_num::<u8, LE>(out, version);
    proof {
        assert(models::<SerializableRoot>(flat.roots@) =~= rec.roots);
    }
    write_count(out, flat.roots.len() as u16);
    match write_records::<SerializableRoot>(out, &flat.roots) {
        Ok(()) => {},
        Err(e) => return Err(e),
    }
    assert(out@ == old(out)@ + (seq![version] + list_bytes::<SerializableRoot>(rec.roots)));
    if version > LAST_PLAIN_VERSION {
        proof {
            if rec.blocks.len() > 0 {
                lemma_tables_serve(rec.blocks, 0);
            } else {
                assert(rotation_keys(rec.blocks) =~= Seq::<u64>::empty());
            }
        }
        let tables = match build_tables(&flat.blocks) {
            Some(tables) => tables,
            None => return Err(CodecError::FormatViolation),
        };
        match write_tables(out, &tables) {
            Ok(()) => {},
            Err(e) => return Err(e),
        }
        write_count(out, flat.blocks.len() as u16);
        assert(out@ == old(out)@ + (seq![version] + list_bytes::<SerializableRoot>(rec.roots)
            + tables_bytes(tables_in(rec.blocks, version)) + u16_bytes(rec.blocks.len() as u16)));
        proof {
            assert forall|i: int| 0 <= i < rec.blocks.len() implies (block_fits(
                #[trigger] rec.blocks[i],
                Some(tables@),
            ) == block_fits(rec.blocks[i], None)) by {
                lemma_block_fits_with_tables(rec.blocks, i);
            }
        }
        match write_blocks(out, &flat.blocks, Some(&tables)) {
            Ok(()) => {},
            Err(e) => return Err(e),
        }
        assert(out@ == old(out)@ + stream_bytes(rec, version));
        Ok(())
    } else {
        write_count(out, flat.blocks.len() as u16);
        assert(out@ == old(out)@ + (seq![version] + list_bytes::<SerializableRoot>(rec.roots)
            + tables_bytes(tables_in(rec.blocks, version)) + u16_bytes(rec.blocks.len() as u16)));
        match write_blocks(out, &flat.blocks, None) {
            Ok(()) => {},
            Err(e) => return Err(e),
        }
        assert(out@ == old(out)@ + stream_bytes(rec, version));
        Ok(())
    }
}

/// The bytes of a building in the given version: those of its two flat
/// lists.
pub open spec fn building_bytes(b: BuildingView, version: u8) -> Seq<u8> {
    stream_bytes(flatten(b), version)
}

/// Whether a building can be written: its roots and its blocks can be
/// numbered, and its flat lists fit the layout.
pub open spec fn encodable(b: BuildingView) -> bool {
    indexable(b) && stream_fits(flatten(b))
}

/// Appends a building to `out` as a stream of the given version. Versions up
/// to `LAST_PLAIN_VERSION` write rotations and colours out in every block;
/// later versions write dictionaries of them and indices in the blocks.
/// Where the building cannot be written, `out` stays as it was.
pub fn write_building(out: &mut Vec<u8>, building: &Building, version: u8) -> (r: Result<
    (),
    CodecError,
>)
    ensures
        match r {
            Ok(()) => encodable(building@) && final(out)@ == old(out)@ + building_bytes(
                building@,
                version,
            ),
            Err(e) => e == CodecError::FormatViolation && !encodable(building@) && final(out)@
                == old(out)@,
        },
{
    let flat = match SerializableBuilding::from_building(building) {
        Ok(flat) => flat,
        Err(e) => return Err(e),
    };
    let mut stream: Vec<u8> = Vec::new();
    match write_stream(&mut stream, &flat, version) {
        Ok(()) => {},
        Err(e) => return Err(e),
    }
    assert(stream@ =~= building_bytes(building@, version));
    out.append(&mut stream);
    Ok(())
}

} // verus!
